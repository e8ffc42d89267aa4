//! The commands of administrators.

use vstd::prelude::*;
use vstd::string::*;

use crate::cache;
use crate::cache::Cache;
use crate::config::{Config, ConfigView};
use crate::db::{BridgedRoom, PendingInvite};
use crate::discord_client;
use crate::error::{BridgeError, BridgeErrorView};
use crate::json::{Json, JsonView};
use crate::matrix_client;
use crate::matrix_client::{MatrixClient, MatrixRequest};
use crate::message;
use crate::message::MessageContent;
use crate::number;
use crate::shell;
use crate::text;
use crate::utils;
use crate::utils::ResponseView;
use crate::web;

verus! {

/// What a command answers.
pub enum CommandResponse {
    Text(String),
    Yaml(String),
    Table { headers: Vec<String>, rows: Vec<Vec<String>>, footer: Option<String> },
    Terminal(String),
}

impl View for CommandResponse {
    type V = ResponseView;

    open spec fn view(&self) -> ResponseView {
        match self {
            CommandResponse::Text(s) => ResponseView::Text(s@),
            CommandResponse::Yaml(s) => ResponseView::Yaml(s@),
            CommandResponse::Table { headers, rows, footer } => ResponseView::Table {
                headers: text::texts(headers@),
                rows: utils::row_texts(rows@),
                footer: web::opt_text(*footer),
            },
            CommandResponse::Terminal(s) => ResponseView::Terminal(s@),
        }
    }
}

/// How much a row counts toward the size of a message: its bytes, and twenty for each cell.
pub open spec fn row_size(row: Seq<Seq<char>>) -> nat
    decreases row.len(),
{
    if row.len() == 0 {
        0
    } else {
        row_size(row.drop_last()) + number::utf8_len(row.last()) + 20
    }
}

/// How much rows count.
pub open spec fn rows_size(rows: Seq<Seq<Seq<char>>>) -> nat
    decreases rows.len(),
{
    if rows.len() == 0 {
        0
    } else {
        rows_size(rows.drop_last()) + row_size(rows.last())
    }
}

/// The rows of each message, where `current` is what the message begun so far holds. A message takes
/// rows as long as they fit, and at least one.
pub open spec fn row_groups(
    rows: Seq<Seq<Seq<char>>>,
    current: Seq<Seq<Seq<char>>>,
) -> Seq<Seq<Seq<Seq<char>>>>
    decreases rows.len(),
{
    if rows.len() == 0 {
        if current.len() == 0 {
            Seq::empty()
        } else {
            seq![current]
        }
    } else if current.len() > 0 && rows_size(current) + row_size(rows[0])
        > utils::MAX_MESSAGE_SIZE {
        seq![current] + row_groups(rows.drop_first(), seq![rows[0]])
    } else {
        row_groups(rows.drop_first(), current.push(rows[0]))
    }
}

/// Rows one under the other, cells separated by bars.
pub open spec fn plain_rows(rows: Seq<Seq<Seq<char>>>) -> Seq<char>
    decreases rows.len(),
{
    if rows.len() == 0 {
        Seq::empty()
    } else {
        plain_rows(rows.drop_last()) + text::joined(rows.last(), " | "@) + "\n"@
    }
}

/// A dash line for each of `n` columns.
pub open spec fn dashes(n: nat) -> Seq<Seq<char>> {
    Seq::new(n, |i: int| "---"@)
}

/// Cells as HTML, each between two tags.
pub open spec fn html_cells(cells: Seq<Seq<char>>, open: Seq<char>, close: Seq<char>) -> Seq<char>
    decreases cells.len(),
{
    if cells.len() == 0 {
        Seq::empty()
    } else {
        html_cells(cells.drop_last(), open, close) + (open + web::html_text(cells.last()) + close)
    }
}

/// Rows as HTML.
pub open spec fn html_rows(rows: Seq<Seq<Seq<char>>>) -> Seq<char>
    decreases rows.len(),
{
    if rows.len() == 0 {
        Seq::empty()
    } else {
        html_rows(rows.drop_last()) + ("<tr>"@ + html_cells(rows.last(), "<td>"@, "</td>"@)
            + "</tr>"@)
    }
}

/// A table as plain text and as HTML.
pub open spec fn table_message(
    headers: Seq<Seq<char>>,
    rows: Seq<Seq<Seq<char>>>,
    footer: Option<Seq<char>>,
) -> (Seq<char>, Seq<char>) {
    let plain = text::joined(headers, " | "@) + "\n"@ + text::joined(
        dashes(headers.len()),
        " | "@,
    ) + "\n"@ + plain_rows(rows);
    let html = "<table><thead><tr>"@ + html_cells(headers, "<th>"@, "</th>"@)
        + "</tr></thead><tbody>"@ + html_rows(rows) + "</tbody></table>"@;
    match footer {
        Some(f) => (
            plain + "\n\n"@ + f,
            html + ("<br><em>"@ + web::html_text(f) + "</em>"@),
        ),
        None => (plain, html),
    }
}

/// The messages of a table. The footer stands under the last one.
pub open spec fn table_messages(
    headers: Seq<Seq<char>>,
    rows: Seq<Seq<Seq<char>>>,
    footer: Option<Seq<char>>,
) -> Seq<(Seq<char>, Seq<char>)> {
    if rows.len() == 0 {
        seq![utils::formatted("No data to display."@, None)]
    } else {
        let groups = row_groups(rows, Seq::empty());
        Seq::new(
            groups.len(),
            |i: int|
                table_message(
                    headers,
                    groups[i],
                    if i == groups.len() - 1 {
                        footer
                    } else {
                        None
                    },
                ),
        )
    }
}

/// The messages of an answer.
pub open spec fn response_messages(response: ResponseView) -> Seq<(Seq<char>, Seq<char>)> {
    match response {
        ResponseView::Text(s) => utils::all_formatted(utils::split_messages(s), None),
        ResponseView::Yaml(s) => utils::all_formatted(utils::split_messages(s), Some("yaml"@)),
        ResponseView::Terminal(s) => utils::all_formatted(utils::split_messages(s), Some("bash"@)),
        ResponseView::Table { headers, rows, footer } => table_messages(headers, rows, footer),
    }
}

/// The smaller of a size and one more than fits into a message.
pub open spec fn capped(size: nat) -> nat {
    if size > utils::MAX_MESSAGE_SIZE {
        (utils::MAX_MESSAGE_SIZE + 1) as nat
    } else {
        size
    }
}

/// Measures a row, as far as it matters.
fn measure_row(row: &Vec<String>) -> (size: usize)
    ensures
        size == capped(row_size(text::texts(row@))),
{
    let count: usize = row.len();
    let ghost views = text::texts(row@);
    let mut size: usize = 0;
    let mut i: usize = 0;
    assert(views.take(0) =~= Seq::<Seq<char>>::empty());
    while i < count
        invariant
            count == row@.len(),
            views == text::texts(row@),
            i <= count,
            size == capped(row_size(views.take(i as int))),
        decreases count - i,
    {
        proof {
            assert(views.take(i + 1).drop_last() =~= views.take(i as int));
            assert(views.take(i + 1).last() == row@[i as int]@);
        }
        let cell: usize = number::byte_len(row[i].as_str());
        if cell > utils::MAX_MESSAGE_SIZE || size + cell + 20 > utils::MAX_MESSAGE_SIZE {
            size = utils::MAX_MESSAGE_SIZE + 1;
        } else {
            size = size + cell + 20;
        }
        i += 1;
    }
    assert(views.take(count as int) =~= views);
    size
}

/// Writes cells as HTML.
fn push_html_cells(html: &mut String, cells: &Vec<String>, open: &str, close: &str)
    ensures
        final(html)@ == old(html)@ + html_cells(text::texts(cells@), open@, close@),
{
    let count: usize = cells.len();
    let ghost views = text::texts(cells@);
    let ghost before = html@;
    let mut i: usize = 0;
    proof {
        assert(views.take(0) =~= Seq::<Seq<char>>::empty());
        assert(before + Seq::<char>::empty() =~= before);
    }
    while i < count
        invariant
            count == cells@.len(),
            views == text::texts(cells@),
            i <= count,
            html@ == before + html_cells(views.take(i as int), open@, close@),
        decreases count - i,
    {
        let ghost start = html@;
        proof {
            assert(views.take(i + 1).drop_last() =~= views.take(i as int));
            assert(views.take(i + 1).last() == cells@[i as int]@);
        }
        let cell = open.to_owned().concat(web::escape_html(cells[i].as_str()).as_str()).concat(
            close,
        );
        html.append(cell.as_str());
        proof {
            assert(html@ =~= before + (html_cells(views.take(i as int), open@, close@) + cell@));
        }
        i += 1;
    }
    assert(views.take(count as int) =~= views);
}

/// Gives a table as plain text and as HTML.
pub fn format_table_chunk(headers: &Vec<String>, rows: &Vec<Vec<String>>, footer: &Option<String>) -> (
    res: (String, String))
    ensures
        (res.0@, res.1@) == table_message(
            text::texts(headers@),
            utils::row_texts(rows@),
            web::opt_text(*footer),
        ),
{
    let columns: usize = headers.len();
    let mut lines: Vec<String> = Vec::new();
    let mut c: usize = 0;
    while c < columns
        invariant
            c <= columns,
            lines@.len() == c,
            forall|j: int| 0 <= j < c ==> (#[trigger] lines@[j])@ == "---"@,
        decreases columns - c,
    {
        lines.push("---".to_owned());
        c += 1;
    }
    assert(text::texts(lines@) =~= dashes(columns as nat));
    assert(text::texts(headers@).len() == columns);
    let mut plain = text::join(headers, " | ").concat("\n").concat(
        text::join(&lines, " | ").as_str(),
    ).concat("\n");
    let mut html = "<table><thead><tr>".to_owned();
    push_html_cells(&mut html, headers, "<th>", "</th>");
    html.append("</tr></thead><tbody>");
    let ghost plain_head = plain@;
    let ghost html_head = html@;
    let count: usize = rows.len();
    let ghost cells = utils::row_texts(rows@);
    let mut i: usize = 0;
    proof {
        assert(cells.take(0) =~= Seq::<Seq<Seq<char>>>::empty());
        assert(plain_head + Seq::<char>::empty() =~= plain_head);
        assert(html_head + Seq::<char>::empty() =~= html_head);
    }
    while i < count
        invariant
            count == rows@.len(),
            cells == utils::row_texts(rows@),
            i <= count,
            plain@ == plain_head + plain_rows(cells.take(i as int)),
            html@ == html_head + html_rows(cells.take(i as int)),
        decreases count - i,
    {
        let ghost html_before = html@;
        proof {
            assert(cells.take(i + 1).drop_last() =~= cells.take(i as int));
            assert(cells.take(i + 1).last() == text::texts(rows@[i as int]@));
        }
        plain.append(text::join(&rows[i], " | ").as_str());
        plain.append("\n");
        html.append("<tr>");
        push_html_cells(&mut html, &rows[i], "<td>", "</td>");
        html.append("</tr>");
        proof {
            assert(plain@ =~= plain_head + plain_rows(cells.take(i + 1)));
            assert(html@ =~= html_head + html_rows(cells.take(i + 1)));
        }
        i += 1;
    }
    assert(cells.take(count as int) =~= cells);
    html.append("</tbody></table>");
    match footer {
        Some(f) => {
            plain.append("\n\n");
            plain.append(f.as_str());
            let note = "<br><em>".to_owned().concat(web::escape_html(f.as_str()).as_str()).concat(
                "</em>",
            );
            html.append(note.as_str());
        },
        None => {},
    }
    (plain, html)
}

/// The texts of the rows of tables.
pub open spec fn group_texts(groups: Seq<Vec<Vec<String>>>) -> Seq<Seq<Seq<Seq<char>>>> {
    Seq::new(groups.len(), |i: int| utils::row_texts(groups[i]@))
}

/// Distributes rows over messages.
pub fn group_rows(rows: &Vec<Vec<String>>) -> (groups: Vec<Vec<Vec<String>>>)
    ensures
        group_texts(groups@) == row_groups(utils::row_texts(rows@), Seq::empty()),
{
    let count: usize = rows.len();
    let ghost cells = utils::row_texts(rows@);
    let ghost goal = row_groups(cells, Seq::empty());
    let mut groups: Vec<Vec<Vec<String>>> = Vec::new();
    let mut current: Vec<Vec<String>> = Vec::new();
    let mut size: usize = 0;
    let mut i: usize = 0;
    proof {
        assert(cells.skip(0) =~= cells);
        assert(utils::row_texts(current@) =~= Seq::<Seq<Seq<char>>>::empty());
        assert(group_texts(groups@) + goal =~= goal);
    }
    while i < count
        invariant
            count == rows@.len(),
            cells == utils::row_texts(rows@),
            i <= count,
            size == capped(rows_size(utils::row_texts(current@))),
            group_texts(groups@) + row_groups(
                cells.skip(i as int),
                utils::row_texts(current@),
            ) == goal,
        decreases count - i,
    {
        let ghost held = utils::row_texts(current@);
        let ghost done = group_texts(groups@);
        let ghost row = text::texts(rows@[i as int]@);
        proof {
            assert(cells.skip(i as int)[0] == row);
            assert(cells.skip(i as int).drop_first() =~= cells.skip(i + 1));
        }
        let weight: usize = measure_row(&rows[i]);
        if current.len() > 0 && size + weight > utils::MAX_MESSAGE_SIZE {
            groups.push(current);
            current = Vec::new();
            current.push(text::copy_texts(&rows[i]));
            size = weight;
            proof {
                assert(utils::row_texts(current@) =~= seq![row]);
                assert(seq![row].drop_last() =~= Seq::<Seq<Seq<char>>>::empty());
                assert(rows_size(Seq::<Seq<Seq<char>>>::empty()) == 0);
                assert(rows_size(seq![row]) == row_size(row));
                assert(group_texts(groups@) =~= done.push(held));
                let rest = row_groups(cells.skip(i + 1), seq![row]);
                assert(done.push(held) + rest =~= done + (seq![held] + rest));
            }
        } else {
            current.push(text::copy_texts(&rows[i]));
            proof {
                assert(utils::row_texts(current@) =~= held.push(row));
                assert(held.push(row).drop_last() =~= held);
            }
            if size + weight > utils::MAX_MESSAGE_SIZE {
                size = utils::MAX_MESSAGE_SIZE + 1;
            } else {
                size = size + weight;
            }
        }
        i += 1;
    }
    let ghost held = utils::row_texts(current@);
    let ghost done = group_texts(groups@);
    proof {
        assert(cells.skip(count as int) =~= Seq::<Seq<Seq<char>>>::empty());
    }
    if current.len() > 0 {
        groups.push(current);
        assert(group_texts(groups@) =~= done + seq![held]);
    } else {
        assert(done + Seq::<Seq<Seq<Seq<char>>>>::empty() =~= done);
    }
    groups
}

impl CommandResponse {
    /// The messages of an answer, each as plain text and as HTML.
    pub fn render_chunks(self) -> (chunks: Vec<(String, String)>)
        ensures
            utils::message_views(chunks@) == response_messages(self@),
    {
        match self {
            CommandResponse::Text(s) => Self::chunk_text(s.as_str(), None),
            CommandResponse::Yaml(s) => Self::chunk_text(s.as_str(), Some("yaml")),
            CommandResponse::Terminal(s) => Self::chunk_text(s.as_str(), Some("bash")),
            CommandResponse::Table { headers, rows, footer } => Self::chunk_table(
                &headers,
                &rows,
                &footer,
            ),
        }
    }

    /// Cuts a text into messages and gives each as plain text and as HTML.
    pub fn chunk_text(s: &str, lang: Option<&str>) -> (chunks: Vec<(String, String)>)
        ensures
            utils::message_views(chunks@) == utils::all_formatted(
                utils::split_messages(s@),
                utils::opt_str(lang),
            ),
    {
        utils::CommandResponse::chunk_text(s, lang)
    }

    /// The messages of a table.
    pub fn chunk_table(
        headers: &Vec<String>,
        rows: &Vec<Vec<String>>,
        footer: &Option<String>,
    ) -> (chunks: Vec<(String, String)>)
        ensures
            utils::message_views(chunks@) == table_messages(
                text::texts(headers@),
                utils::row_texts(rows@),
                web::opt_text(*footer),
            ),
    {
        let mut chunks: Vec<(String, String)> = Vec::new();
        if rows.len() == 0 {
            chunks.push(utils::format_text_chunk("No data to display.", None));
            assert(utils::message_views(chunks@) =~= seq![
                utils::formatted("No data to display."@, None),
            ]);
            return chunks;
        }
        let groups = group_rows(rows);
        let count: usize = groups.len();
        let ghost views = group_texts(groups@);
        let ghost goal = table_messages(
            text::texts(headers@),
            utils::row_texts(rows@),
            web::opt_text(*footer),
        );
        assert(utils::row_texts(rows@).len() > 0);
        let none: Option<String> = None;
        let mut i: usize = 0;
        while i < count
            invariant
                count == groups@.len(),
                views == group_texts(groups@),
                none == None::<String>,
                goal.len() == count,
                forall|j: int|
                    0 <= j < count ==> #[trigger] goal[j] == table_message(
                        text::texts(headers@),
                        views[j],
                        if j == count - 1 {
                            web::opt_text(*footer)
                        } else {
                            None
                        },
                    ),
                i <= count,
                chunks@.len() == i,
                forall|j: int|
                    0 <= j < i ==> ((#[trigger] chunks@[j]).0@, chunks@[j].1@) == goal[j],
            decreases count - i,
        {
            assert(views[i as int] == utils::row_texts(groups@[i as int]@));
            if i == count - 1 {
                chunks.push(format_table_chunk(headers, &groups[i], footer));
            } else {
                chunks.push(format_table_chunk(headers, &groups[i], &none));
            }
            i += 1;
        }
        assert(utils::message_views(chunks@) =~= goal);
        chunks
    }
}

/// All rows of a table are shown, in order.
pub proof fn law_tables_keep_their_rows(
    rows: Seq<Seq<Seq<char>>>,
    current: Seq<Seq<Seq<char>>>,
)
    ensures
        row_groups(rows, current).flatten() == current + rows,
    decreases rows.len(),
{
    let groups = row_groups(rows, current);
    if rows.len() == 0 {
        if current.len() == 0 {
            assert(groups.flatten() =~= current + rows);
        } else {
            lemma_flatten_first(current, Seq::empty());
            assert(groups =~= seq![current] + Seq::<Seq<Seq<Seq<char>>>>::empty());
            assert(current + rows =~= current);
        }
    } else if current.len() > 0 && rows_size(current) + row_size(rows[0])
        > utils::MAX_MESSAGE_SIZE {
        law_tables_keep_their_rows(rows.drop_first(), seq![rows[0]]);
        lemma_flatten_first(current, row_groups(rows.drop_first(), seq![rows[0]]));
        assert(current + (seq![rows[0]] + rows.drop_first()) =~= current + rows);
    } else {
        law_tables_keep_their_rows(rows.drop_first(), current.push(rows[0]));
        assert(current.push(rows[0]) + rows.drop_first() =~= current + rows);
    }
}

proof fn lemma_flatten_first(
    first: Seq<Seq<Seq<char>>>,
    rest: Seq<Seq<Seq<Seq<char>>>>,
)
    ensures
        (seq![first] + rest).flatten() == first + rest.flatten(),
{
    let all = seq![first] + rest;
    assert(all.drop_first() =~= rest);
    assert(all.first() == first);
}

/// The command line of an administrator.
#[derive(Debug)]
pub struct AdminCli {
    pub command: AdminCommand,
}

/// Which part of a long list is shown.
#[derive(Clone, Copy, PartialEq, Eq, Structural, Debug)]
pub struct Pagination {
    pub page: u32,
    pub limit: u32,
}

/// What an administrator asks.
#[derive(Debug)]
pub enum AdminCommand {
    Bridge { action: BridgeAction },
    Invite { action: InviteAction },
    Util { action: UtilAction },
}

/// What an administrator asks about bridges.
#[derive(Debug)]
pub enum BridgeAction {
    Link { matrix_room_id: String, discord_channel_id: String },
    Unlink { matrix_room_id: String },
    List(Pagination),
    Status { matrix_room_id: String },
    Config { matrix_room_id: String, setting: Option<String>, value: Option<String> },
}

/// What an administrator asks about invitations.
#[derive(Debug)]
pub enum InviteAction {
    List(Pagination),
    Accept { id_or_ranges: String },
    Delete { id_or_ranges: String },
}

/// Other things that an administrator asks.
#[derive(Debug)]
pub enum UtilAction {
    Verify { discord_channel_id: String },
    DebugEmojis,
}

/// What is done with a message that may be a command.
pub enum AdminRoute {
    /// It is none that the bridge answers.
    Ignore,
    /// Its words cannot be told apart.
    Garbled,
    /// It is a command line of these words.
    Words(Vec<String>),
}

/// What is done with a message that may be a command, over texts.
pub enum AdminRouteView {
    Ignore,
    Garbled,
    Words(Seq<Seq<char>>),
}

impl View for AdminRoute {
    type V = AdminRouteView;

    open spec fn view(&self) -> AdminRouteView {
        match self {
            AdminRoute::Ignore => AdminRouteView::Ignore,
            AdminRoute::Garbled => AdminRouteView::Garbled,
            AdminRoute::Words(words) => AdminRouteView::Words(text::texts(words@)),
        }
    }
}

/// Whether a message may be a command: it stands in the administrators' room and begins with an
/// exclamation mark.
pub open spec fn may_command(config: ConfigView, room: Seq<char>, body: Seq<char>) -> bool {
    config.config_room_id == Some(room) && "!"@.is_prefix_of(text::trimmed_white(body))
}

/// What is done with a message, given the words behind its exclamation mark.
pub open spec fn admin_route(
    config: ConfigView,
    room: Seq<char>,
    body: Seq<char>,
    words: Option<Seq<Seq<char>>>,
) -> AdminRouteView {
    if !may_command(config, room, body) {
        AdminRouteView::Ignore
    } else {
        match words {
            None => AdminRouteView::Garbled,
            Some(list) => if list.len() == 0 {
                AdminRouteView::Ignore
            } else {
                AdminRouteView::Words(seq!["bot"@] + list)
            },
        }
    }
}

/// Decides what is done with a message that may be a command, given its words.
pub fn route_words(words: Option<Vec<String>>) -> (route: AdminRoute)
    ensures
        route@ == match shell::optional_texts(words) {
            None => AdminRouteView::Garbled,
            Some(list) => if list.len() == 0 {
                AdminRouteView::Ignore
            } else {
                AdminRouteView::Words(seq!["bot"@] + list)
            },
        },
{
    match words {
        None => AdminRoute::Garbled,
        Some(list) => {
            let count: usize = list.len();
            if count == 0 {
                return AdminRoute::Ignore;
            }
            let ghost views = text::texts(list@);
            let mut all: Vec<String> = Vec::new();
            all.push("bot".to_owned());
            let mut i: usize = 0;
            while i < count
                invariant
                    count == list@.len(),
                    i <= count,
                    all@.len() == i + 1,
                    all@[0]@ == "bot"@,
                    forall|j: int| 0 <= j < i ==> (#[trigger] all@[j + 1])@ == list@[j]@,
                decreases count - i,
            {
                all.push(list[i].clone());
                i += 1;
            }
            proof {
                let shown = text::texts(all@);
                assert forall|j: int| 0 <= j < shown.len() implies shown[j] == (seq!["bot"@]
                    + views)[j] by {
                    if j > 0 {
                        assert(all@[(j - 1) + 1]@ == list@[j - 1]@);
                    }
                }
                assert(shown =~= seq!["bot"@] + views);
            }
            AdminRoute::Words(all)
        },
    }
}

/// How many entries a page shows, and how many stand before it.
pub open spec fn page_limit(limit: u32) -> int {
    if limit < 1 {
        1
    } else if limit > 100 {
        100
    } else {
        limit as int
    }
}

/// How many entries stand before a page.
pub open spec fn page_offset(pagination: Pagination) -> int {
    if pagination.page == 0 {
        0
    } else {
        (pagination.page - 1) * page_limit(pagination.limit)
    }
}

/// How many pages `total` entries take.
pub open spec fn page_count(total: int, limit: int) -> int {
    if total <= 0 {
        0
    } else if (total + limit - 1) / limit > u32::MAX {
        u32::MAX as int
    } else {
        (total + limit - 1) / limit
    }
}

/// How many pages `total` entries take.
pub fn total_pages(total: i64, limit: u32) -> (pages: u32)
    requires
        1 <= limit,
    ensures
        pages == page_count(total as int, limit as int),
{
    if total <= 0 {
        return 0;
    }
    let whole: u64 = total as u64 / limit as u64;
    let rest: u64 = total as u64 % limit as u64;
    let pages: u64 = if rest > 0 {
        whole + 1
    } else {
        whole
    };
    proof {
        let t = total as int;
        let l = limit as int;
        let w = whole as int;
        let r = rest as int;
        assert(t == w * l + r && 0 <= r < l) by {
            vstd::arithmetic::div_mod::lemma_fundamental_div_mod(t, l);
            assert(l * w == w * l) by (nonlinear_arith);
        }
        if r > 0 {
            assert((t + l - 1) / l == w + 1) by (nonlinear_arith)
                requires
                    t == w * l + r,
                    0 < r < l,
            ;
        } else {
            assert((t + l - 1) / l == w) by (nonlinear_arith)
                requires
                    t == w * l + r,
                    r == 0,
                    l >= 1,
            ;
        }
    }
    if pages > u32::MAX as u64 {
        u32::MAX
    } else {
        pages as u32
    }
}

impl Pagination {
    /// Whether the number of entries before the page can be counted.
    pub fn fits(&self) -> (res: bool)
        ensures
            res == (page_offset(*self) <= u32::MAX),
    {
        let (limit, before) = self.spread();
        before * (limit as u64) <= u32::MAX as u64
    }

    fn spread(&self) -> (res: (u32, u64))
        ensures
            res.0 == page_limit(self.limit),
            res.1 * res.0 == page_offset(*self),
            res.1 * res.0 <= u64::MAX,
    {
        let limit: u32 = if self.limit < 1 {
            1
        } else if self.limit > 100 {
            100
        } else {
            self.limit
        };
        let before: u64 = if self.page == 0 {
            0
        } else {
            (self.page - 1) as u64
        };
        assert(before * limit <= u64::MAX) by (nonlinear_arith)
            requires
                before <= u32::MAX,
                limit <= 100,
        ;
        assert(before == 0 ==> before * limit == 0) by (nonlinear_arith);
        (limit, before)
    }

    /// How many entries the page shows, and how many stand before it.
    pub fn bounds(&self) -> (res: (u32, u32))
        requires
            page_offset(*self) <= u32::MAX,
        ensures
            res.0 == page_limit(self.limit),
            res.1 == page_offset(*self),
    {
        let (limit, before) = self.spread();
        (limit, (before * (limit as u64)) as u32)
    }
}

/// A truth value in words.
pub open spec fn truth(b: bool) -> Seq<char> {
    if b {
        "true"@
    } else {
        "false"@
    }
}

fn truth_text(b: bool) -> (s: String)
    ensures
        s@ == truth(b),
{
    if b {
        "true".to_owned()
    } else {
        "false".to_owned()
    }
}

/// The settings of a bridge in one line.
pub open spec fn settings_line(bridge: BridgedRoom) -> Seq<char> {
    "D2M: "@ + truth(bridge.d2m_enabled) + " (ModDel: "@ + truth(bridge.d2m_mod_deletions)
        + ", TypingStatus: "@ + truth(bridge.d2m_typing) + ") | M2D: "@ + truth(bridge.m2d_enabled)
        + " (ModDel: "@ + truth(bridge.m2d_mod_deletions) + ", TypingStatus: "@ + truth(
        bridge.m2d_typing,
    ) + ")"@
}

/// The line under a list.
pub open spec fn list_footer(what: Seq<char>, page: u32, limit: u32, total: i64) -> Seq<char> {
    let pages = page_count(total as int, page_limit(limit));
    if pages > 1 {
        "Page "@ + number::decimal(page as nat) + " of "@ + number::decimal(pages as nat)
            + " (Total: "@ + number::signed_decimal(total as int)
            + "). Use --page <n> to navigate."@
    } else {
        "Total "@ + what + ": "@ + number::signed_decimal(total as int)
    }
}

fn write_footer(what: &str, pagination: Pagination, total: i64) -> (s: String)
    ensures
        s@ == list_footer(what@, pagination.page, pagination.limit, total),
{
    let limit: u32 = if pagination.limit < 1 {
        1
    } else if pagination.limit > 100 {
        100
    } else {
        pagination.limit
    };
    let pages: u32 = total_pages(total, limit);
    let shown_total = number::to_signed_decimal(total);
    if pages > 1 {
        "Page ".to_owned().concat(number::to_decimal(pagination.page as u64).as_str()).concat(
            " of ",
        ).concat(number::to_decimal(pages as u64).as_str()).concat(" (Total: ").concat(
            shown_total.as_str(),
        ).concat("). Use --page <n> to navigate.")
    } else {
        "Total ".to_owned().concat(what).concat(": ").concat(shown_total.as_str())
    }
}

/// The rows of a list of bridges.
pub open spec fn bridge_rows(bridges: Seq<BridgedRoom>) -> Seq<Seq<Seq<char>>> {
    Seq::new(
        bridges.len(),
        |i: int| seq![bridges[i].room_id@, bridges[i].channel_id@, settings_line(bridges[i])],
    )
}

/// The rows of a list of invitations.
pub open spec fn invite_rows(invites: Seq<PendingInvite>) -> Seq<Seq<Seq<char>>> {
    Seq::new(
        invites.len(),
        |i: int|
            seq![
                number::signed_decimal(invites[i].id as int),
                invites[i].room_id@,
                match invites[i].room_name {
                    Some(name) => name@,
                    None => "Unknown"@,
                },
                invites[i].sender@,
            ],
    )
}

/// A Discord channel that the bridge can use.
#[derive(Debug)]
pub struct ChannelInfo {
    pub id: String,
    pub name: String,
    pub guild_id: Option<String>,
    pub channel_type: u8,
}

/// What Discord's description of a channel gives: its name, its guild and its kind, where it is a
/// text channel or a news channel.
pub open spec fn channel_info(data: JsonView) -> Result<
    (Seq<char>, Option<Seq<char>>, nat),
    BridgeErrorView,
> {
    let kind = match data.at("type"@) {
        JsonView::Number(n) => n,
        _ => 999,
    };
    if kind == 0 || kind == 5 {
        Ok((data.at("name"@).text_or("unknown"@), data.at("guild_id"@).as_text(), kind))
    } else {
        Err(BridgeErrorView::Config("Channel must be a text channel or news channel"@))
    }
}

/// Reads Discord's description of a channel.
pub fn verify_discord_channel(channel_id: &str, data: &Json) -> (res: Result<
    ChannelInfo,
    BridgeError,
>)
    ensures
        match res {
            Ok(info) => info.id@ == channel_id@ && channel_info(data@) == Ok::<
                (Seq<char>, Option<Seq<char>>, nat),
                BridgeErrorView,
            >((info.name@, web::opt_text(info.guild_id), info.channel_type as nat)),
            Err(e) => channel_info(data@) == Err::<
                (Seq<char>, Option<Seq<char>>, nat),
                BridgeErrorView,
            >(e@),
        },
{
    let kind: u64 = match data.get("type") {
        Some(Json::Number(n)) => *n,
        _ => 999,
    };
    if kind != 0 && kind != 5 {
        return Err(
            BridgeError::Config("Channel must be a text channel or news channel".to_owned()),
        );
    }
    Ok(
        ChannelInfo {
            id: channel_id.to_owned(),
            name: data.text_at_or("name", "unknown"),
            guild_id: data.text_at("guild_id"),
            channel_type: kind as u8,
        },
    )
}

/// Whether a part of a list of numbers, such as `3` or `1-5`, names a number.
pub open spec fn part_names(part: Seq<char>, n: int) -> bool {
    match text::find(part, "-"@) {
        Some(i) => {
            let first = number::unsigned_value(text::trimmed_white(part.take(i)));
            let last = number::unsigned_value(text::trimmed_white(part.skip(i + 1)));
            &&& first matches Some(a) && a <= usize::MAX && a <= n
            &&& last matches Some(b) && b <= usize::MAX && n <= b
        },
        None => number::unsigned_value(text::trimmed_white(part)) == Some(n as nat) && n
            <= usize::MAX,
    }
}

/// Whether a list of numbers and ranges names a number.
pub open spec fn names_index(input: Seq<char>, n: int) -> bool {
    exists|k: int|
        0 <= k < text::split_text(input, ","@).len() && part_names(
            #[trigger] text::split_text(input, ","@)[k],
            n,
        )
}

/// The smallest and the largest number that a part names, where it names any up to `most`.
fn part_range(part: &str, most: usize) -> (res: Option<(usize, usize)>)
    ensures
        match res {
            Some(range) => 1 <= range.0 <= range.1 <= most && forall|n: int|
                1 <= n <= most ==> (#[trigger] part_names(part@, n) <==> range.0 <= n <= range.1),
            None => forall|n: int| 1 <= n <= most ==> !#[trigger] part_names(part@, n),
        },
{
    proof {
        reveal_strlit("-");
    }
    match text::split_once(part, "-") {
        Some((start, end)) => {
            let first = number::parse_usize(text::trim(start.as_str()).as_str());
            let last = number::parse_usize(text::trim(end.as_str()).as_str());
            match (first, last) {
                (Some(a), Some(b)) => {
                    let low: usize = if a < 1 {
                        1
                    } else {
                        a
                    };
                    let high: usize = if b > most {
                        most
                    } else {
                        b
                    };
                    if low <= high {
                        Some((low, high))
                    } else {
                        None
                    }
                },
                _ => None,
            }
        },
        None => match number::parse_usize(text::trim(part).as_str()) {
            Some(n) => if 1 <= n && n <= most {
                Some((n, n))
            } else {
                None
            },
            None => None,
        },
    }
}

/// Whether one of the ranges holds a number.
spec fn covered(ranges: Seq<(usize, usize)>, n: int) -> bool {
    exists|k: int| 0 <= k < ranges.len() && (#[trigger] ranges[k]).0 <= n <= ranges[k].1
}

/// Whether one of the ranges holds a number.
fn in_ranges(ranges: &Vec<(usize, usize)>, n: usize) -> (res: bool)
    ensures
        res == covered(ranges@, n as int),
{
    let count: usize = ranges.len();
    let mut k: usize = 0;
    while k < count
        invariant
            count == ranges@.len(),
            k <= count,
            forall|j: int|
                0 <= j < k ==> !((#[trigger] ranges@[j]).0 <= n && n <= ranges@[j].1),
        decreases count - k,
    {
        if ranges[k].0 <= n && n <= ranges[k].1 {
            assert(ranges@[k as int].0 <= n <= ranges@[k as int].1);
            return true;
        }
        k += 1;
    }
    false
}

/// Whether numbers are in ascending order, each once.
pub open spec fn ascending(numbers: Seq<usize>) -> bool {
    forall|i: int, j: int| 0 <= i < j < numbers.len() ==> numbers[i] < numbers[j]
}

/// Whether an invitation is among those that an administrator chose.
pub open spec fn is_chosen(input: Seq<char>, id: i64) -> bool {
    1 <= id <= MAX_INVITE && names_index(input, id as int)
}

/// The largest number of an invitation that can be chosen.
pub const MAX_INVITE: usize = 99_999_999;

/// What `bridge link` still has to find out, and what it found.
pub struct LinkCase {
    pub room_id: String,
    pub channel_id: String,
    /// The channel that the room is bridged to already.
    pub bridged_to: Option<Result<Option<String>, String>>,
    /// The channels that are bridged.
    pub channels: Option<Result<Vec<String>, String>>,
    /// The channel as Discord describes it.
    pub verified: Option<Result<ChannelInfo, String>>,
    /// Whether the bridge could be kept.
    pub added: Option<Result<(), String>>,
}

/// What happens next with `bridge link`.
pub enum LinkStep {
    AskRoom,
    AskChannels,
    AskDiscord,
    Add,
    Answer(CommandResponse),
}

impl LinkCase {
    /// Whether the room's identifier has the right shape.
    pub open spec fn room_is_valid(self) -> bool {
        "!"@.is_prefix_of(self.room_id@) && text::find(self.room_id@, ":"@) is Some
    }

    /// Whether the channel's identifier has the right shape.
    pub open spec fn channel_is_valid(self) -> bool {
        text::all_digits(self.channel_id@)
    }

    /// Whether the identifiers have the right shapes.
    pub open spec fn is_valid(self) -> bool {
        self.room_is_valid() && self.channel_is_valid()
    }

    /// Whether the room is known to be free.
    pub open spec fn room_is_free(self) -> bool {
        self.is_valid() && self.bridged_to matches Some(Ok(None))
    }

    /// Whether the channel is known to be free too.
    pub open spec fn channel_is_free(self) -> bool {
        self.room_is_free() && (self.channels matches Some(Ok(list)) && !discord_client::is_listed(
            list@,
            self.channel_id@,
        ))
    }

    /// Whether the bridge can see the channel too.
    pub open spec fn can_link(self) -> bool {
        self.channel_is_free() && (self.verified matches Some(Ok(_)))
    }

    /// What is answered, once everything that matters is known.
    pub open spec fn answer(self) -> Seq<char> {
        if !self.room_is_valid() {
            "Invalid Matrix room ID format. Should be like: !abc123:matrix.org"@
        } else if !self.channel_is_valid() {
            "Invalid Discord channel ID format. Should be numeric."@
        } else if !self.room_is_free() {
            match self.bridged_to {
                Some(Err(e)) => "Database error: "@ + e@,
                _ => "Matrix room `"@ + self.room_id@ + "` is already bridged."@,
            }
        } else if !self.channel_is_free() {
            match self.channels {
                Some(Err(e)) => "Database error: "@ + e@,
                _ => "Discord channel `"@ + self.channel_id@
                    + "` is already bridged to another room."@,
            }
        } else {
            match (self.verified, self.added) {
                (Some(Err(e)), _) => "Failed to verify Discord channel `"@ + self.channel_id@
                    + "`:\n"@ + e@,
                (_, Some(Err(e))) => "Failed to create bridge: "@ + e@,
                (Some(Ok(channel)), _) => "Successfully linked!\n\nMatrix: `"@ + self.room_id@
                    + "`\nDiscord: #"@ + channel.name@ + " (`"@ + self.channel_id@ + "`)"@,
                _ => Seq::empty(),
            }
        }
    }

    /// Whether everything that a link needs was found to be in order.
    pub fn is_checked(&self) -> (res: bool)
        ensures
            res == self.can_link(),
    {
        let valid = text::starts_with(self.room_id.as_str(), "!") && text::contains(
            self.room_id.as_str(),
            ":",
        ) && text::is_numeric(self.channel_id.as_str());
        match (&self.bridged_to, &self.channels, &self.verified) {
            (Some(Ok(None)), Some(Ok(list)), Some(Ok(_))) => valid && !discord_client::listed(
                list,
                self.channel_id.as_str(),
            ),
            _ => false,
        }
    }

    /// What happens next. A room and a channel are linked if their identifiers have the right
    /// shapes, neither is bridged yet, and the bot can see the channel.
    pub fn next(&self) -> (step: LinkStep)
        ensures
            step is AskRoom <==> self.is_valid() && self.bridged_to is None,
            step is AskChannels <==> self.room_is_free() && self.channels is None,
            step is AskDiscord <==> self.channel_is_free() && self.verified is None,
            step is Add <==> self.can_link() && self.added is None,
            step matches LinkStep::Answer(response) ==> response@ == ResponseView::Text(
                self.answer(),
            ),
    {
        if !text::starts_with(self.room_id.as_str(), "!") || !text::contains(
            self.room_id.as_str(),
            ":",
        ) {
            return LinkStep::Answer(
                CommandResponse::Text(
                    "Invalid Matrix room ID format. Should be like: !abc123:matrix.org".to_owned(),
                ),
            );
        }
        if !text::is_numeric(self.channel_id.as_str()) {
            return LinkStep::Answer(
                CommandResponse::Text(
                    "Invalid Discord channel ID format. Should be numeric.".to_owned(),
                ),
            );
        }
        match &self.bridged_to {
            None => {
                return LinkStep::AskRoom;
            },
            Some(Err(e)) => {
                return LinkStep::Answer(
                    CommandResponse::Text("Database error: ".to_owned().concat(e.as_str())),
                );
            },
            Some(Ok(Some(_))) => {
                return LinkStep::Answer(
                    CommandResponse::Text(
                        "Matrix room `".to_owned().concat(self.room_id.as_str()).concat(
                            "` is already bridged.",
                        ),
                    ),
                );
            },
            Some(Ok(None)) => {},
        }
        match &self.channels {
            None => {
                return LinkStep::AskChannels;
            },
            Some(Err(e)) => {
                return LinkStep::Answer(
                    CommandResponse::Text("Database error: ".to_owned().concat(e.as_str())),
                );
            },
            Some(Ok(list)) => {
                if discord_client::listed(list, self.channel_id.as_str()) {
                    return LinkStep::Answer(
                        CommandResponse::Text(
                            "Discord channel `".to_owned().concat(
                                self.channel_id.as_str(),
                            ).concat("` is already bridged to another room."),
                        ),
                    );
                }
            },
        }
        match &self.verified {
            None => LinkStep::AskDiscord,
            Some(Err(e)) => LinkStep::Answer(
                CommandResponse::Text(
                    "Failed to verify Discord channel `".to_owned().concat(
                        self.channel_id.as_str(),
                    ).concat("`:\n").concat(e.as_str()),
                ),
            ),
            Some(Ok(channel)) => match &self.added {
                None => LinkStep::Add,
                Some(Err(e)) => LinkStep::Answer(
                    CommandResponse::Text(
                        "Failed to create bridge: ".to_owned().concat(e.as_str()),
                    ),
                ),
                Some(Ok(())) => LinkStep::Answer(
                    CommandResponse::Text(
                        "Successfully linked!\n\nMatrix: `".to_owned().concat(
                            self.room_id.as_str(),
                        ).concat("`\nDiscord: #").concat(channel.name.as_str()).concat(
                            " (`",
                        ).concat(self.channel_id.as_str()).concat("`)"),
                    ),
                ),
            },
        }
    }
}

/// What `bridge unlink` still has to find out, and what it found.
pub struct UnlinkCase {
    pub room_id: String,
    /// The channel that the room is bridged to.
    pub channel: Option<Result<Option<String>, String>>,
    /// Whether the bridge could be removed.
    pub removed: Option<Result<(), String>>,
}

/// What happens next with `bridge unlink`.
pub enum UnlinkStep {
    AskChannel,
    /// The bridge of this room is removed.
    Remove(String),
    Answer(CommandResponse),
}

/// What `bridge unlink` answers, given the room's channel and whether the bridge was removed.
pub open spec fn unlink_text(
    room: Seq<char>,
    channel: Result<Option<String>, String>,
    removed: Result<(), String>,
) -> Seq<char> {
    match channel {
        Err(e) => "Database error: "@ + e@,
        Ok(None) => "Matrix room `"@ + room + "` is not bridged."@,
        Ok(Some(c)) => match removed {
            Ok(()) => "Successfully unlinked Matrix room `"@ + room + "` from Discord channel `"@
                + c@ + "`"@,
            Err(e) => "Failed to remove bridge: "@ + e@,
        },
    }
}

impl UnlinkCase {
    /// Whether the room is known to be bridged.
    pub open spec fn is_bridged(self) -> bool {
        self.channel matches Some(Ok(Some(_)))
    }

    /// Whether the bridge was there and is gone.
    pub open spec fn is_unlinked(self) -> bool {
        self.is_bridged() && (self.removed matches Some(Ok(())))
    }

    /// What happens next. The bridge of a room that has one is removed, and nothing else is.
    pub fn next(&self) -> (step: UnlinkStep)
        ensures
            step is AskChannel <==> self.channel is None,
            step is Remove <==> self.is_bridged() && self.removed is None,
            step matches UnlinkStep::Remove(room) ==> room@ == self.room_id@,
            step matches UnlinkStep::Answer(response) ==> response@ == ResponseView::Text(
                unlink_text(
                    self.room_id@,
                    self.channel->0,
                    match self.removed {
                        Some(removed) => removed,
                        None => Ok(()),
                    },
                ),
            ),
    {
        match &self.channel {
            None => UnlinkStep::AskChannel,
            Some(channel) => match &self.removed {
                Some(removed) => UnlinkStep::Answer(
                    AdminCommandHandler::cmd_unlink(self.room_id.as_str(), channel, removed),
                ),
                None => match channel {
                    Ok(Some(_)) => UnlinkStep::Remove(self.room_id.clone()),
                    _ => UnlinkStep::Answer(
                        AdminCommandHandler::cmd_unlink(self.room_id.as_str(), channel, &Ok(())),
                    ),
                },
            },
        }
    }

    /// Forgets what is remembered of a room whose bridge was removed, and else nothing.
    pub fn clear(&self, cache: &mut Cache)
        ensures
            if self.is_unlinked() {
                final(cache).has_cleared(*old(cache), self.room_id@)
            } else {
                *final(cache) == *old(cache)
            },
    {
        match (&self.channel, &self.removed) {
            (Some(Ok(Some(_))), Some(Ok(()))) => {
                cache.remove_room_data(self.room_id.as_str());
            },
            _ => {},
        }
    }
}

/// The guild of a channel in words.
pub open spec fn guild_text(guild: Option<String>) -> Seq<char> {
    match guild {
        Some(id) => id@,
        None => "Unknown"@,
    }
}

fn guild_or_unknown(guild: &Option<String>) -> (s: String)
    ensures
        s@ == guild_text(*guild),
{
    match guild {
        Some(id) => id.clone(),
        None => "Unknown".to_owned(),
    }
}

/// What `bridge status` says of a channel that the bot can see.
pub open spec fn status_yaml(
    room: Seq<char>,
    channel: Seq<char>,
    info: ChannelInfo,
    emojis: nat,
) -> Seq<char> {
    "matrix_room: \""@ + room + "\"\ndiscord_channel:\n  id: \""@ + channel + "\"\n  name: \""@
        + info.name@ + "\"\nguild_id: \""@ + guild_text(info.guild_id)
        + "\"\ncustom_emojis_cached: "@ + number::decimal(emojis) + "\nstatus: \"Active\""@
}

/// What `bridge status` says of a channel that the bot cannot see.
pub open spec fn unreachable_yaml(
    room: Seq<char>,
    channel: Seq<char>,
    error: Seq<char>,
) -> Seq<char> {
    "matrix_room: \""@ + room + "\"\ndiscord_channel: \""@ + channel
        + "\"\nstatus: \"Discord channel not accessible\"\nerror: \""@ + error + "\""@
}

/// What `bridge config` says of a bridge.
pub open spec fn config_yaml(room: Seq<char>, bridge: BridgedRoom) -> Seq<char> {
    "bridge_config:\n  room_id: \""@ + room + "\"\n  d2m_enabled: "@ + truth(bridge.d2m_enabled)
        + "\n  m2d_enabled: "@ + truth(bridge.m2d_enabled) + "\n  d2m_mod_deletions: "@ + truth(
        bridge.d2m_mod_deletions,
    ) + "\n  m2d_mod_deletions: "@ + truth(bridge.m2d_mod_deletions) + "\n  d2m_typing: "@ + truth(
        bridge.d2m_typing,
    ) + "\n  m2d_typing: "@ + truth(bridge.m2d_typing)
}

/// The truth value that a word stands for, in either case.
pub open spec fn truth_of(word: Seq<char>) -> Option<bool> {
    let w = text::lowered(word);
    if w == "true"@ || w == "1"@ || w == "yes"@ || w == "on"@ {
        Some(true)
    } else if w == "false"@ || w == "0"@ || w == "no"@ || w == "off"@ {
        Some(false)
    } else {
        None
    }
}

/// The truth value that a word stands for.
pub fn read_truth(word: &str) -> (res: Option<bool>)
    ensures
        res == truth_of(word@),
{
    let w = text::to_ascii_lowercase(word);
    let s = w.as_str();
    if text::same(s, "true") || text::same(s, "1") || text::same(s, "yes") || text::same(s, "on") {
        Some(true)
    } else if text::same(s, "false") || text::same(s, "0") || text::same(s, "no") || text::same(
        s,
        "off",
    ) {
        Some(false)
    } else {
        None
    }
}

/// What `bridge config` does next.
pub enum ConfigStep {
    /// The setting gets this value.
    Update { setting: String, value: bool },
    Answer(CommandResponse),
}

/// A list of bridges that was asked for, over sequences.
pub open spec fn bridges_view(bridges: Result<Vec<BridgedRoom>, String>) -> Result<
    Seq<BridgedRoom>,
    Seq<char>,
> {
    match bridges {
        Ok(list) => Ok(list@),
        Err(e) => Err(e@),
    }
}

/// A list of invitations that was asked for, over sequences.
pub open spec fn invites_view(invites: Result<Vec<PendingInvite>, String>) -> Result<
    Seq<PendingInvite>,
    Seq<char>,
> {
    match invites {
        Ok(list) => Ok(list@),
        Err(e) => Err(e@),
    }
}

/// What `bridge list` answers.
pub open spec fn bridge_list(
    bridges: Result<Seq<BridgedRoom>, Seq<char>>,
    pagination: Pagination,
    total: i64,
) -> ResponseView {
    match bridges {
        Err(e) => ResponseView::Text("Error listing bridges: "@ + e),
        Ok(list) => if list.len() == 0 {
            ResponseView::Text("No bridges configured."@)
        } else {
            ResponseView::Table {
                headers: seq!["Matrix Room"@, "Discord Channel"@, "Settings"@],
                rows: bridge_rows(list),
                footer: Some(
                    list_footer("Bridges"@, pagination.page, pagination.limit, total),
                ),
            }
        },
    }
}

/// What `invite list` answers.
pub open spec fn invite_list(
    invites: Result<Seq<PendingInvite>, Seq<char>>,
    pagination: Pagination,
    total: i64,
) -> ResponseView {
    match invites {
        Err(e) => ResponseView::Text("Database error: "@ + e),
        Ok(list) => if list.len() == 0 {
            ResponseView::Text("No pending invites."@)
        } else {
            ResponseView::Table {
                headers: seq!["List ID"@, "Matrix Room"@, "Room Name"@, "Sender"@],
                rows: invite_rows(list),
                footer: Some(
                    list_footer("Invites"@, pagination.page, pagination.limit, total),
                ),
            }
        },
    }
}

/// What `invite accept` answers.
pub open spec fn accepted_text(joined: nat, errors: Seq<Seq<char>>) -> Seq<char> {
    if joined == 0 {
        "No invites found matching the provided IDs."@
    } else {
        let first = "Accepted "@ + number::decimal(joined) + " invite(s)."@;
        if errors.len() == 0 {
            first
        } else {
            first + "\nErrors:\n"@ + text::joined(errors, "\n"@)
        }
    }
}

/// How `invite accept` goes on: how many rooms were joined, and what is said of the others.
pub struct JoinTally {
    pub joined: u64,
    pub errors: Vec<String>,
}

impl JoinTally {
    /// No room was tried yet.
    pub fn new() -> (tally: Self)
        ensures
            tally.joined == 0,
            tally.errors@ == Seq::<String>::empty(),
    {
        JoinTally { joined: 0, errors: Vec::new() }
    }

    /// Takes down whether a room could be joined. Its invitation is removed where it could.
    pub fn record(&mut self, room_id: &str, outcome: &Result<(), String>) -> (removes: bool)
        requires
            old(self).joined < u64::MAX,
        ensures
            removes == (outcome is Ok),
            match *outcome {
                Ok(()) => final(self).joined == old(self).joined + 1 && final(self).errors
                    == old(self).errors,
                Err(e) => final(self).joined == old(self).joined && text::texts(
                    final(self).errors@,
                ) == text::texts(old(self).errors@).push(
                    "Failed to join "@ + room_id@ + ": "@ + e@,
                ),
            },
    {
        match outcome {
            Ok(()) => {
                self.joined = self.joined + 1;
                true
            },
            Err(e) => {
                let ghost before = text::texts(self.errors@);
                let failure = AdminCommandHandler::join_failure(room_id, e.as_str());
                let ghost said = failure@;
                self.errors.push(failure);
                assert(text::texts(self.errors@) =~= before.push(said));
                false
            },
        }
    }
}

/// Handles the commands of administrators.
pub struct AdminCommandHandler {
    pub matrix: MatrixClient,
}

impl AdminCommandHandler {
    /// A handler with the given access to Matrix.
    pub fn new(matrix: MatrixClient) -> (handler: Self)
        ensures
            handler.matrix == matrix,
    {
        AdminCommandHandler { matrix }
    }

    /// Decides what is done with a message that may be a command.
    pub fn handle_command(&self, room_id: &str, body: &str) -> (route: AdminRoute)
        ensures
            route@ == admin_route(
                self.matrix.config@,
                room_id@,
                body@,
                shell::shell_words(text::trimmed_white(body@).skip(1)),
            ),
    {
        match &self.matrix.config.config_room_id {
            Some(room) => {
                if !text::same(room.as_str(), room_id) {
                    return AdminRoute::Ignore;
                }
            },
            None => {
                return AdminRoute::Ignore;
            },
        }
        let trimmed = text::trim(body);
        proof {
            reveal_strlit("!");
            assert("!"@.len() == 1);
        }
        match text::strip_prefix(trimmed.as_str(), "!") {
            None => AdminRoute::Ignore,
            Some(line) => route_words(shell::split_words(line.as_str())),
        }
    }

    /// What a garbled command is answered.
    pub fn garbled() -> (response: CommandResponse)
        ensures
            response@ == ResponseView::Text(
                "Error: Invalid command format. Please check your quotes."@,
            ),
    {
        CommandResponse::Text(
            "Error: Invalid command format. Please check your quotes.".to_owned(),
        )
    }

    /// What `bridge list` answers, given the bridges of the page and how many there are in all.
    pub fn cmd_list(
        pagination: Pagination,
        bridges: &Result<Vec<BridgedRoom>, String>,
        total: i64,
    ) -> (response: CommandResponse)
        ensures
            response@ == bridge_list(bridges_view(*bridges), pagination, total),
    {
        match bridges {
            Err(e) => CommandResponse::Text(
                "Error listing bridges: ".to_owned().concat(e.as_str()),
            ),
            Ok(list) => {
                let count: usize = list.len();
                if count == 0 {
                    return CommandResponse::Text("No bridges configured.".to_owned());
                }
                let mut rows: Vec<Vec<String>> = Vec::new();
                let mut i: usize = 0;
                while i < count
                    invariant
                        count == list@.len(),
                        i <= count,
                        rows@.len() == i,
                        forall|j: int|
                            0 <= j < i ==> text::texts((#[trigger] rows@[j])@) == bridge_rows(
                                list@,
                            )[j],
                    decreases count - i,
                {
                    let bridge = &list[i];
                    let settings = "D2M: ".to_owned().concat(
                        truth_text(bridge.d2m_enabled).as_str(),
                    ).concat(" (ModDel: ").concat(
                        truth_text(bridge.d2m_mod_deletions).as_str(),
                    ).concat(", TypingStatus: ").concat(
                        truth_text(bridge.d2m_typing).as_str(),
                    ).concat(") | M2D: ").concat(truth_text(bridge.m2d_enabled).as_str()).concat(
                        " (ModDel: ",
                    ).concat(truth_text(bridge.m2d_mod_deletions).as_str()).concat(
                        ", TypingStatus: ",
                    ).concat(truth_text(bridge.m2d_typing).as_str()).concat(")");
                    let mut row: Vec<String> = Vec::new();
                    row.push(bridge.room_id.clone());
                    row.push(bridge.channel_id.clone());
                    row.push(settings);
                    assert(text::texts(row@) =~= bridge_rows(list@)[i as int]);
                    rows.push(row);
                    i += 1;
                }
                let mut headers: Vec<String> = Vec::new();
                headers.push("Matrix Room".to_owned());
                headers.push("Discord Channel".to_owned());
                headers.push("Settings".to_owned());
                proof {
                    assert(text::texts(headers@) =~= seq![
                        "Matrix Room"@,
                        "Discord Channel"@,
                        "Settings"@,
                    ]);
                    assert(utils::row_texts(rows@) =~= bridge_rows(list@));
                }
                CommandResponse::Table {
                    headers,
                    rows,
                    footer: Some(write_footer("Bridges", pagination, total)),
                }
            },
        }
    }

    /// Remembers the room of a channel that was linked.
    pub fn keep_link(&self, cache: &mut Cache, room_id: &str, channel_id: &str)
        ensures
            final(cache).m_rooms@ == old(cache).m_rooms@.insert(
                matrix_client::room_alias(self.matrix.config@, channel_id@),
                room_id@,
            ),
            final(cache).m_rooms.lost() == old(cache).m_rooms.lost().remove(
                matrix_client::room_alias(self.matrix.config@, channel_id@),
            ),
            *final(cache) == (Cache { m_rooms: final(cache).m_rooms, ..*old(cache) }),
    {
        let alias = self.matrix.matrixify_room(channel_id);
        cache.m_rooms.insert(alias, room_id.to_owned());
    }

    /// Remembers the room of a channel, where they were linked.
    pub fn settle_link(&self, cache: &mut Cache, case: &LinkCase)
        ensures
            if case.can_link() && (case.added matches Some(Ok(()))) {
                &&& final(cache).m_rooms@ == old(cache).m_rooms@.insert(
                    matrix_client::room_alias(self.matrix.config@, case.channel_id@),
                    case.room_id@,
                )
                &&& final(cache).m_rooms.lost() == old(cache).m_rooms.lost().remove(
                    matrix_client::room_alias(self.matrix.config@, case.channel_id@),
                )
                &&& *final(cache) == (Cache { m_rooms: final(cache).m_rooms, ..*old(cache) })
            } else {
                *final(cache) == *old(cache)
            },
    {
        match &case.added {
            Some(Ok(())) => {
                if case.is_checked() {
                    self.keep_link(cache, case.room_id.as_str(), case.channel_id.as_str());
                }
            },
            _ => {},
        }
    }

    /// Sends an answer into a room, message by message, in the name of the bridge.
    pub fn send_command_response(&self, room_id: &str, response: CommandResponse) -> (requests: Vec<
        MatrixRequest,
    >)
        ensures
            requests@.len() == response_messages(response@).len(),
            forall|i: int|
                0 <= i < requests@.len() ==> ({
                    let (plain, html) = response_messages(response@)[i];
                    matrix_client::sends_event(
                        (#[trigger] requests@[i])@,
                        room_id@,
                        "m.room.message"@,
                        message::html_content(plain, html).json(),
                        None,
                    )
                }),
    {
        let chunks = response.render_chunks();
        let ghost views = utils::message_views(chunks@);
        let count: usize = chunks.len();
        let mut requests: Vec<MatrixRequest> = Vec::new();
        let mut i: usize = 0;
        while i < count
            invariant
                count == chunks@.len(),
                views == utils::message_views(chunks@),
                i <= count,
                requests@.len() == i,
                forall|j: int|
                    0 <= j < i ==> matrix_client::sends_event(
                        (#[trigger] requests@[j])@,
                        room_id@,
                        "m.room.message"@,
                        message::html_content(views[j].0, views[j].1).json(),
                        None,
                    ),
            decreases count - i,
        {
            let content = MessageContent::text_html(chunks[i].0.as_str(), chunks[i].1.as_str());
            requests.push(self.matrix.send_message(room_id, &content, None));
            i += 1;
        }
        requests
    }

    /// What `bridge unlink` answers, given the room's channel and whether the bridge was removed.
    pub fn cmd_unlink(
        room_id: &str,
        channel: &Result<Option<String>, String>,
        removed: &Result<(), String>,
    ) -> (response: CommandResponse)
        ensures
            response@ == ResponseView::Text(unlink_text(room_id@, *channel, *removed)),
    {
        match channel {
            Err(e) => CommandResponse::Text("Database error: ".to_owned().concat(e.as_str())),
            Ok(None) => CommandResponse::Text(
                "Matrix room `".to_owned().concat(room_id).concat("` is not bridged."),
            ),
            Ok(Some(c)) => match removed {
                Ok(()) => CommandResponse::Text(
                    "Successfully unlinked Matrix room `".to_owned().concat(room_id).concat(
                        "` from Discord channel `",
                    ).concat(c.as_str()).concat("`"),
                ),
                Err(e) => CommandResponse::Text(
                    "Failed to remove bridge: ".to_owned().concat(e.as_str()),
                ),
            },
        }
    }

    /// What `bridge status` answers for a room with the given channel, where `seen` is the channel as
    /// Discord describes it.
    pub fn cmd_status(
        room_id: &str,
        channel: &Result<Option<String>, String>,
        seen: &Result<ChannelInfo, String>,
        emojis: u64,
    ) -> (response: CommandResponse)
        ensures
            response@ == match *channel {
                Err(e) => ResponseView::Text("Database error: "@ + e@),
                Ok(None) => ResponseView::Text(
                    "Matrix room `"@ + room_id@ + "` is not bridged."@,
                ),
                Ok(Some(c)) => match *seen {
                    Ok(info) => ResponseView::Yaml(
                        status_yaml(room_id@, c@, info, emojis as nat),
                    ),
                    Err(e) => ResponseView::Yaml(unreachable_yaml(room_id@, c@, e@)),
                },
            },
    {
        match channel {
            Err(e) => CommandResponse::Text("Database error: ".to_owned().concat(e.as_str())),
            Ok(None) => CommandResponse::Text(
                "Matrix room `".to_owned().concat(room_id).concat("` is not bridged."),
            ),
            Ok(Some(c)) => match seen {
                Ok(info) => {
                    let yaml = "matrix_room: \"".to_owned().concat(room_id).concat(
                        "\"\ndiscord_channel:\n  id: \"",
                    ).concat(c.as_str()).concat("\"\n  name: \"").concat(
                        info.name.as_str(),
                    ).concat("\"\nguild_id: \"").concat(
                        guild_or_unknown(&info.guild_id).as_str(),
                    ).concat("\"\ncustom_emojis_cached: ").concat(
                        number::to_decimal(emojis).as_str(),
                    ).concat("\nstatus: \"Active\"");
                    CommandResponse::Yaml(yaml)
                },
                Err(e) => {
                    let yaml = "matrix_room: \"".to_owned().concat(room_id).concat(
                        "\"\ndiscord_channel: \"",
                    ).concat(c.as_str()).concat(
                        "\"\nstatus: \"Discord channel not accessible\"\nerror: \"",
                    ).concat(e.as_str()).concat("\"");
                    CommandResponse::Yaml(yaml)
                },
            },
        }
    }

    /// Whether `util verify` is given something that can be a channel.
    pub fn is_channel_id(channel_id: &str) -> (res: bool)
        ensures
            res == text::all_digits(channel_id@),
    {
        text::is_numeric(channel_id)
    }

    /// What `util verify` answers, where `seen` is the channel as Discord describes it.
    pub fn cmd_verify(channel_id: &str, seen: &Result<ChannelInfo, String>) -> (response:
        CommandResponse)
        ensures
            response@ == if !text::all_digits(channel_id@) {
                ResponseView::Text("Invalid Discord channel ID format. Should be numeric."@)
            } else {
                match *seen {
                    Ok(info) => ResponseView::Yaml(
                        "channel:\n  id: \""@ + info.id@ + "\"\n  name: \""@ + info.name@
                            + "\"\ntype: \""@ + (if info.channel_type == 0 {
                            "Text"@
                        } else if info.channel_type == 5 {
                            "News"@
                        } else {
                            "Other"@
                        }) + "\"\nguild_id: \""@ + guild_text(info.guild_id)
                            + "\"\nverified: true"@,
                    ),
                    Err(e) => ResponseView::Text(
                        "Failed to verify channel `"@ + channel_id@ + "`:\n"@ + e@,
                    ),
                }
            },
    {
        if !text::is_numeric(channel_id) {
            return CommandResponse::Text(
                "Invalid Discord channel ID format. Should be numeric.".to_owned(),
            );
        }
        match seen {
            Ok(info) => {
                let kind = if info.channel_type == 0 {
                    "Text".to_owned()
                } else if info.channel_type == 5 {
                    "News".to_owned()
                } else {
                    "Other".to_owned()
                };
                let yaml = "channel:\n  id: \"".to_owned().concat(info.id.as_str()).concat(
                    "\"\n  name: \"",
                ).concat(info.name.as_str()).concat("\"\ntype: \"").concat(kind.as_str()).concat(
                    "\"\nguild_id: \"",
                ).concat(guild_or_unknown(&info.guild_id).as_str()).concat("\"\nverified: true");
                CommandResponse::Yaml(yaml)
            },
            Err(e) => CommandResponse::Text(
                "Failed to verify channel `".to_owned().concat(channel_id).concat("`:\n").concat(
                    e.as_str(),
                ),
            ),
        }
    }

    /// What `invite list` answers, given the invitations of the page and how many there are in all.
    pub fn cmd_invite_list(
        pagination: Pagination,
        invites: &Result<Vec<PendingInvite>, String>,
        total: i64,
    ) -> (response: CommandResponse)
        ensures
            response@ == invite_list(invites_view(*invites), pagination, total),
    {
        match invites {
            Err(e) => CommandResponse::Text("Database error: ".to_owned().concat(e.as_str())),
            Ok(list) => {
                let count: usize = list.len();
                if count == 0 {
                    return CommandResponse::Text("No pending invites.".to_owned());
                }
                let mut rows: Vec<Vec<String>> = Vec::new();
                let mut i: usize = 0;
                while i < count
                    invariant
                        count == list@.len(),
                        i <= count,
                        rows@.len() == i,
                        forall|j: int|
                            0 <= j < i ==> text::texts((#[trigger] rows@[j])@) == invite_rows(
                                list@,
                            )[j],
                    decreases count - i,
                {
                    let invite = &list[i];
                    let mut row: Vec<String> = Vec::new();
                    row.push(number::to_signed_decimal(invite.id));
                    row.push(invite.room_id.clone());
                    match &invite.room_name {
                        Some(name) => {
                            row.push(name.clone());
                        },
                        None => {
                            row.push("Unknown".to_owned());
                        },
                    }
                    row.push(invite.sender.clone());
                    assert(text::texts(row@) =~= invite_rows(list@)[i as int]);
                    rows.push(row);
                    i += 1;
                }
                let mut headers: Vec<String> = Vec::new();
                headers.push("List ID".to_owned());
                headers.push("Matrix Room".to_owned());
                headers.push("Room Name".to_owned());
                headers.push("Sender".to_owned());
                proof {
                    assert(text::texts(headers@) =~= seq![
                        "List ID"@,
                        "Matrix Room"@,
                        "Room Name"@,
                        "Sender"@,
                    ]);
                    assert(utils::row_texts(rows@) =~= invite_rows(list@));
                }
                CommandResponse::Table {
                    headers,
                    rows,
                    footer: Some(write_footer("Invites", pagination, total)),
                }
            },
        }
    }

    /// The numbers from one to `most` that a list of numbers and ranges names, in ascending order.
    pub fn parse_indices(input: &str, most: usize) -> (numbers: Vec<usize>)
        ensures
            ascending(numbers@),
            forall|n: usize|
                #[trigger] numbers@.contains(n) <==> 1 <= n <= most && names_index(input@, n as int),
    {
        proof {
            reveal_strlit(",");
        }
        let parts = text::split(input, ",");
        let count: usize = parts.len();
        let ghost views = text::texts(parts@);
        let mut ranges: Vec<(usize, usize)> = Vec::new();
        let mut low: usize = most;
        let mut high: usize = 0;
        let mut i: usize = 0;
        let ghost mut from: Seq<int> = Seq::empty();
        while i < count
            invariant
                count == parts@.len(),
                views == text::texts(parts@),
                i <= count,
                high <= most,
                ranges@.len() > 0 ==> 1 <= low,
                ranges@.len() == 0 ==> low == most,
                from.len() == ranges@.len(),
                forall|k: int|
                    0 <= k < ranges@.len() ==> {
                        &&& 0 <= #[trigger] from[k] < i
                        &&& low <= ranges@[k].0 <= ranges@[k].1 <= high
                        &&& 1 <= ranges@[k].0
                        &&& forall|n: int|
                            1 <= n <= most ==> (#[trigger] part_names(views[from[k]], n)
                                <==> ranges@[k].0 <= n <= ranges@[k].1)
                    },
                forall|j: int, n: int|
                    0 <= j < i && 1 <= n <= most && #[trigger] part_names(views[j], n)
                        ==> exists|k: int| 0 <= k < ranges@.len() && #[trigger] from[k] == j,
            decreases count - i,
        {
            assert(views[i as int] == parts@[i as int]@);
            match part_range(parts[i].as_str(), most) {
                Some((a, b)) => {
                    let ghost old_ranges = ranges@;
                    let ghost old_from = from;
                    ranges.push((a, b));
                    proof {
                        from = from.push(i as int);
                        assert forall|j: int, n: int|
                            0 <= j < i + 1 && 1 <= n <= most && #[trigger] part_names(
                                views[j],
                                n,
                            ) implies exists|k: int|
                            0 <= k < ranges@.len() && #[trigger] from[k] == j by {
                            if j < i {
                                let k = choose|k: int|
                                    0 <= k < old_ranges.len() && #[trigger] old_from[k] == j;
                                assert(from[k] == j);
                            } else {
                                assert(from[old_ranges.len() as int] == j);
                            }
                        }
                        assert forall|k: int| 0 <= k < old_ranges.len() implies from[k]
                            == old_from[k] && ranges@[k] == old_ranges[k] by {}
                    }
                    if a < low {
                        low = a;
                    }
                    if b > high {
                        high = b;
                    }
                },
                None => {},
            }
            i += 1;
        }
        let mut numbers: Vec<usize> = Vec::new();
        if ranges.len() == 0 {
            proof {
                assert forall|n: usize| #[trigger] numbers@.contains(n) <==> 1 <= n <= most
                    && names_index(input@, n as int) by {
                    if 1 <= n <= most && names_index(input@, n as int) {
                        let j = choose|j: int|
                            0 <= j < views.len() && part_names(#[trigger] views[j], n as int);
                        assert(part_names(views[j], n as int));
                        assert(false);
                    }
                }
            }
            return numbers;
        }
        assert(low <= high && low >= 1) by {
            assert(0 <= from[0] < count);
        }
        let mut n: usize = low;
        let mut is_done = false;
        while !is_done
            invariant
                1 <= low <= n <= high <= most,
                ascending(numbers@),
                forall|k: int| 0 <= k < numbers@.len() ==> #[trigger] numbers@[k] <= n && (!is_done
                    ==> numbers@[k] < n),
                forall|m: usize|
                    #[trigger] numbers@.contains(m) <==> low <= m && (m < n || (is_done && m == n))
                        && covered(ranges@, m as int),
                is_done ==> n == high,
            decreases high - n + (if is_done {
                0int
            } else {
                1int
            }),
        {
            let ghost before = numbers@;
            if in_ranges(&ranges, n) {
                numbers.push(n);
                proof {
                    assert forall|m: usize| #[trigger] numbers@.contains(m) <==> before.contains(m)
                        || m == n by {
                        if before.contains(m) {
                            let k = before.index_of(m);
                            assert(numbers@[k] == m);
                        }
                        if m == n {
                            assert(numbers@[before.len() as int] == m);
                        }
                        if numbers@.contains(m) {
                            let k = numbers@.index_of(m);
                            if k < before.len() {
                                assert(before[k] == m);
                            }
                        }
                    }
                }
            }
            if n == high {
                is_done = true;
            } else {
                n += 1;
            }
        }
        proof {
            assert forall|m: usize| #[trigger] numbers@.contains(m) <==> 1 <= m <= most
                && names_index(input@, m as int) by {
                if numbers@.contains(m) {
                    let k = choose|k: int|
                        0 <= k < ranges@.len() && (#[trigger] ranges@[k]).0 <= m <= ranges@[k].1;
                    let j = from[k];
                    assert(0 <= j < count);
                    assert(part_names(views[j], m as int));
                }
                if 1 <= m <= most && names_index(input@, m as int) {
                    let j = choose|j: int|
                        0 <= j < views.len() && part_names(#[trigger] views[j], m as int);
                    assert(part_names(views[j], m as int));
                    let k = choose|k: int| 0 <= k < ranges@.len() && #[trigger] from[k] == j;
                    assert(0 <= from[k] < count);
                    assert(ranges@[k].0 <= m <= ranges@[k].1);
                    assert(covered(ranges@, m as int));
                }
            }
        }
        numbers
    }

    /// The invitations that an administrator chose, by their places in the list.
    pub fn choose_invites(input: &str, invites: &Vec<PendingInvite>) -> (places: Vec<usize>)
        ensures
            forall|k: int|
                0 <= k < places@.len() ==> (#[trigger] places@[k]) < invites@.len() && is_chosen(
                    input@,
                    invites@[places@[k] as int].id,
                ),
            forall|i: int|
                0 <= i < invites@.len() && is_chosen(input@, (#[trigger] invites@[i]).id)
                    ==> places@.contains(i as usize),
            ascending(places@),
    {
        let numbers = AdminCommandHandler::parse_indices(input, MAX_INVITE);
        let count: usize = invites.len();
        let mut places: Vec<usize> = Vec::new();
        let mut i: usize = 0;
        while i < count
            invariant
                count == invites@.len(),
                i <= count,
                forall|n: usize|
                    #[trigger] numbers@.contains(n) <==> 1 <= n <= MAX_INVITE && names_index(
                        input@,
                        n as int,
                    ),
                forall|k: int|
                    0 <= k < places@.len() ==> (#[trigger] places@[k]) < i && is_chosen(
                        input@,
                        invites@[places@[k] as int].id,
                    ),
                forall|j: int|
                    0 <= j < i && is_chosen(input@, (#[trigger] invites@[j]).id)
                        ==> places@.contains(j as usize),
                ascending(places@),
            decreases count - i,
        {
            let id: i64 = invites[i].id;
            let ghost before = places@;
            let chosen = id >= 1 && id <= MAX_INVITE as i64 && has_number(&numbers, id as usize);
            if chosen {
                places.push(i);
                proof {
                    assert forall|j: int|
                        0 <= j < i + 1 && is_chosen(
                            input@,
                            (#[trigger] invites@[j]).id,
                        ) implies places@.contains(j as usize) by {
                        if j < i {
                            assert(before.contains(j as usize));
                            let k = before.index_of(j as usize);
                            assert(places@[k] == j);
                        } else {
                            assert(places@[before.len() as int] == j);
                        }
                    }
                }
            }
            i += 1;
        }
        places
    }

    /// What `invite accept` answers once rooms were joined, or could not be.
    pub fn cmd_invite_accept(joined: u64, errors: &Vec<String>) -> (response: CommandResponse)
        ensures
            response@ == ResponseView::Text(accepted_text(joined as nat, text::texts(errors@))),
    {
        if joined == 0 {
            return CommandResponse::Text(
                "No invites found matching the provided IDs.".to_owned(),
            );
        }
        let first = "Accepted ".to_owned().concat(number::to_decimal(joined).as_str()).concat(
            " invite(s).",
        );
        assert(text::texts(errors@).len() == errors@.len());
        if errors.len() == 0 {
            CommandResponse::Text(first)
        } else {
            CommandResponse::Text(
                first.concat("\nErrors:\n").concat(text::join(errors, "\n").as_str()),
            )
        }
    }

    /// What is said of a room that could not be joined.
    pub fn join_failure(room_id: &str, error: &str) -> (s: String)
        ensures
            s@ == "Failed to join "@ + room_id@ + ": "@ + error@,
    {
        "Failed to join ".to_owned().concat(room_id).concat(": ").concat(error)
    }

    /// What `invite delete` answers once invitations were removed.
    pub fn cmd_invite_delete(removed: u64) -> (response: CommandResponse)
        ensures
            response@ == ResponseView::Text(
                if removed == 0 {
                    "No invites found matching the provided IDs."@
                } else {
                    "Deleted "@ + number::decimal(removed as nat) + " invite(s)."@
                },
            ),
    {
        if removed == 0 {
            CommandResponse::Text("No invites found matching the provided IDs.".to_owned())
        } else {
            CommandResponse::Text(
                "Deleted ".to_owned().concat(number::to_decimal(removed).as_str()).concat(
                    " invite(s).",
                ),
            )
        }
    }

    /// What an error of the database is answered.
    pub fn database_error(error: &str) -> (response: CommandResponse)
        ensures
            response@ == ResponseView::Text("Database error: "@ + error@),
    {
        CommandResponse::Text("Database error: ".to_owned().concat(error))
    }

    /// What `bridge config` does, given the bridge of the room: without a setting or a value it shows
    /// the settings; else it changes one of them.
    pub fn cmd_config(
        room_id: &str,
        bridge: &Result<Option<BridgedRoom>, String>,
        setting: Option<&str>,
        value: Option<&str>,
    ) -> (step: ConfigStep)
        ensures
            match *bridge {
                Err(e) => step matches ConfigStep::Answer(r) && r@ == ResponseView::Text(
                    "Database error: "@ + e@,
                ),
                Ok(None) => step matches ConfigStep::Answer(r) && r@ == ResponseView::Text(
                    "No bridge found for room `"@ + room_id@ + "`"@,
                ),
                Ok(Some(b)) => match (utils::opt_str(setting), utils::opt_str(value)) {
                    (Some(name), Some(word)) => match truth_of(word) {
                        Some(truth) => step matches ConfigStep::Update { setting: s, value: v }
                            && s@ == name && v == truth,
                        None => step matches ConfigStep::Answer(r) && r@ == ResponseView::Text(
                            "Value must be true or false"@,
                        ),
                    },
                    _ => step matches ConfigStep::Answer(r) && r@ == ResponseView::Yaml(
                        config_yaml(room_id@, b),
                    ),
                },
            },
    {
        let b = match bridge {
            Err(e) => {
                return ConfigStep::Answer(
                    CommandResponse::Text("Database error: ".to_owned().concat(e.as_str())),
                );
            },
            Ok(None) => {
                return ConfigStep::Answer(
                    CommandResponse::Text(
                        "No bridge found for room `".to_owned().concat(room_id).concat("`"),
                    ),
                );
            },
            Ok(Some(b)) => b,
        };
        match (setting, value) {
            (Some(name), Some(word)) => match read_truth(word) {
                Some(truth) => ConfigStep::Update { setting: name.to_owned(), value: truth },
                None => ConfigStep::Answer(
                    CommandResponse::Text("Value must be true or false".to_owned()),
                ),
            },
            _ => {
                let yaml = "bridge_config:\n  room_id: \"".to_owned().concat(room_id).concat(
                    "\"\n  d2m_enabled: ",
                ).concat(truth_text(b.d2m_enabled).as_str()).concat("\n  m2d_enabled: ").concat(
                    truth_text(b.m2d_enabled).as_str(),
                ).concat("\n  d2m_mod_deletions: ").concat(
                    truth_text(b.d2m_mod_deletions).as_str(),
                ).concat("\n  m2d_mod_deletions: ").concat(
                    truth_text(b.m2d_mod_deletions).as_str(),
                ).concat("\n  d2m_typing: ").concat(truth_text(b.d2m_typing).as_str()).concat(
                    "\n  m2d_typing: ",
                ).concat(truth_text(b.m2d_typing).as_str());
                ConfigStep::Answer(CommandResponse::Yaml(yaml))
            },
        }
    }

    /// What `bridge config` answers once a setting was changed, or could not be.
    pub fn config_updated(
        room_id: &str,
        setting: &str,
        value: bool,
        updated: &Result<(), String>,
    ) -> (response: CommandResponse)
        ensures
            response@ == ResponseView::Text(
                match *updated {
                    Ok(()) => "Updated `"@ + setting@ + "` to `"@ + truth(value) + "` for bridge `"@
                        + room_id@ + "`"@,
                    Err(e) => "Failed to update config: "@ + e@,
                },
            ),
    {
        match updated {
            Ok(()) => CommandResponse::Text(
                "Updated `".to_owned().concat(setting).concat("` to `").concat(
                    truth_text(value).as_str(),
                ).concat("` for bridge `").concat(room_id).concat("`"),
            ),
            Err(e) => CommandResponse::Text(
                "Failed to update config: ".to_owned().concat(e.as_str()),
            ),
        }
    }

    /// What `util debug-emojis` answers, given how many emotes of each kind are remembered.
    pub fn emoji_counts(discord: u64, uploads: u64, packs: u64) -> (response: CommandResponse)
        ensures
            response@ == ResponseView::Yaml(
                "cache_stats:\n  discord_emotes: "@ + number::decimal(discord as nat)
                    + "\n  matrix_cached_uploads: "@ + number::decimal(uploads as nat)
                    + "\n  room_emoji_packs: "@ + number::decimal(packs as nat)
                    + "\nnote: \"Detailed dump printed to application console log\""@,
            ),
    {
        let yaml = "cache_stats:\n  discord_emotes: ".to_owned().concat(
            number::to_decimal(discord).as_str(),
        ).concat("\n  matrix_cached_uploads: ").concat(
            number::to_decimal(uploads).as_str(),
        ).concat("\n  room_emoji_packs: ").concat(number::to_decimal(packs).as_str()).concat(
            "\nnote: \"Detailed dump printed to application console log\"",
        );
        CommandResponse::Yaml(yaml)
    }

    /// What `util debug-emojis` answers. How many entries a cache counts is an estimate.
    pub fn cmd_debug_emojis(cache: &Cache) -> (response: CommandResponse)
        ensures
            exists|discord: u64, uploads: u64, packs: u64|
                #![trigger
                    cache.d_emotes.counted(discord),
                    cache.m_emotes.counted(uploads),
                    cache.m_custom_emojis.counted(packs)]
                cache.d_emotes.counted(discord) && cache.m_emotes.counted(uploads)
                    && cache.m_custom_emojis.counted(packs) && response@ == ResponseView::Yaml(
                    "cache_stats:\n  discord_emotes: "@ + number::decimal(discord as nat)
                        + "\n  matrix_cached_uploads: "@ + number::decimal(uploads as nat)
                        + "\n  room_emoji_packs: "@ + number::decimal(packs as nat)
                        + "\nnote: \"Detailed dump printed to application console log\""@,
                ),
    {
        AdminCommandHandler::emoji_counts(
            cache.d_emotes.entry_count(),
            cache.m_emotes.entry_count(),
            cache.m_custom_emojis.entry_count(),
        )
    }
}

/// Whether a number is in a list.
fn has_number(numbers: &Vec<usize>, n: usize) -> (res: bool)
    ensures
        res == numbers@.contains(n),
{
    let count: usize = numbers.len();
    let mut i: usize = 0;
    while i < count
        invariant
            count == numbers@.len(),
            i <= count,
            forall|j: int| 0 <= j < i ==> #[trigger] numbers@[j] != n,
        decreases count - i,
    {
        if numbers[i] == n {
            return true;
        }
        i += 1;
    }
    false
}

/// Commands are taken in the administrators' room alone.
pub proof fn law_commands_come_from_one_room(
    config: ConfigView,
    room: Seq<char>,
    body: Seq<char>,
    words: Option<Seq<Seq<char>>>,
)
    requires
        config.config_room_id != Some(room),
    ensures
        admin_route(config, room, body, words) == AdminRouteView::Ignore,
{
}

/// A truth value reads back from its word.
pub proof fn law_truth_reads_back(b: bool)
    ensures
        truth_of(truth(b)) == Some(b),
{
    reveal_strlit("true");
    reveal_strlit("false");
    reveal_strlit("1");
    reveal_strlit("yes");
    reveal_strlit("on");
    assert(text::lowered("true"@) =~= "true"@);
    assert(text::lowered("false"@) =~= "false"@);
    assert("false"@.len() == 5 && "true"@.len() == 4 && "1"@.len() == 1 && "yes"@.len() == 3
        && "on"@.len() == 2);
}

/// Every entry of a list stands on one of its pages: the one whose number is one more than how many
/// whole pages stand before it.
pub proof fn law_every_entry_has_a_page(total: int, limit: u32, entry: int)
    requires
        0 <= entry < total,
        page_count(total, page_limit(limit)) < u32::MAX,
    ensures
        ({
            let page = entry / page_limit(limit) + 1;
            let shown = Pagination { page: page as u32, limit };
            &&& 1 <= page <= page_count(total, page_limit(limit))
            &&& page_offset(shown) <= entry < page_offset(shown) + page_limit(limit)
        }),
{
    let l = page_limit(limit);
    let q = entry / l;
    let pages = (total + l - 1) / l;
    vstd::arithmetic::div_mod::lemma_fundamental_div_mod(entry, l);
    assert(q * l <= entry < q * l + l) by (nonlinear_arith)
        requires
            entry == l * q + entry % l,
            0 <= entry % l < l,
    ;
    assert(0 <= q) by (nonlinear_arith)
        requires
            0 <= entry,
            q == entry / l,
            l >= 1,
    ;
    assert(q + 1 <= pages) by (nonlinear_arith)
        requires
            q * l <= entry,
            entry < total,
            pages == (total + l - 1) / l,
            l >= 1,
    ;
    assert((q + 1) as u32 == q + 1);
}

/// A row takes the room of its cells, each with twenty bytes for what stands around it, and rows take
/// the room of each of them.
pub proof fn law_sizes_add_up(
    a: Seq<Seq<char>>,
    b: Seq<Seq<char>>,
    cell: Seq<char>,
    rows: Seq<Seq<Seq<char>>>,
    more: Seq<Seq<Seq<char>>>,
)
    ensures
        row_size(a + b) == row_size(a) + row_size(b),
        row_size(seq![cell]) == number::utf8_len(cell) + 20,
        rows_size(rows + more) == rows_size(rows) + rows_size(more),
        rows_size(seq![a]) == row_size(a),
    decreases b.len() + more.len(),
{
    assert(seq![cell].drop_last() =~= Seq::<Seq<char>>::empty());
    assert(row_size(Seq::<Seq<char>>::empty()) == 0);
    assert(seq![a].drop_last() =~= Seq::<Seq<Seq<char>>>::empty());
    assert(rows_size(Seq::<Seq<Seq<char>>>::empty()) == 0);
    if b.len() > 0 {
        law_sizes_add_up(a, b.drop_last(), cell, rows, more);
        assert((a + b).drop_last() =~= a + b.drop_last());
    } else {
        assert(a + b =~= a);
    }
    if more.len() > 0 {
        law_sizes_add_up(a, b, cell, rows, more.drop_last());
        assert((rows + more).drop_last() =~= rows + more.drop_last());
    } else {
        assert(rows + more =~= rows);
    }
}

/// The rows of a table are put together as long as they fit: no group is empty, each fits into a
/// message or is a single row, and none could take the first row of the next.
pub proof fn law_groups_are_as_large_as_fits(rows: Seq<Seq<Seq<char>>>)
    ensures
        ({
            let groups = row_groups(rows, Seq::empty());
            &&& forall|i: int|
                0 <= i < groups.len() ==> (#[trigger] groups[i]).len() == 1 || (groups[i].len() > 1
                    && rows_size(groups[i]) <= 30_000)
            &&& forall|i: int|
                0 <= i < groups.len() - 1 ==> rows_size(#[trigger] groups[i]) + row_size(
                    groups[i + 1][0],
                ) > 30_000
        }),
{
    lemma_groups(rows, Seq::empty());
}

proof fn lemma_groups(rows: Seq<Seq<Seq<char>>>, current: Seq<Seq<Seq<char>>>)
    requires
        current.len() > 1 ==> rows_size(current) <= 30_000,
    ensures
        ({
            let groups = row_groups(rows, current);
            &&& forall|i: int|
                0 <= i < groups.len() ==> (#[trigger] groups[i]).len() == 1 || (groups[i].len() > 1
                    && rows_size(groups[i]) <= 30_000)
            &&& forall|i: int|
                0 <= i < groups.len() - 1 ==> rows_size(#[trigger] groups[i]) + row_size(
                    groups[i + 1][0],
                ) > 30_000
            &&& current.len() > 0 ==> groups.len() > 0 && groups[0].len() > 0 && groups[0][0]
                == current[0]
        }),
    decreases rows.len(),
{
    if rows.len() > 0 {
        let groups = row_groups(rows, current);
        if current.len() > 0 && rows_size(current) + row_size(rows[0]) > utils::MAX_MESSAGE_SIZE {
            let rest = row_groups(rows.drop_first(), seq![rows[0]]);
            lemma_groups(rows.drop_first(), seq![rows[0]]);
            assert(groups =~= seq![current] + rest);
            assert forall|i: int| 0 <= i < groups.len() implies (#[trigger] groups[i]).len() == 1
                || (groups[i].len() > 1 && rows_size(groups[i]) <= 30_000) by {
                if i > 0 {
                    assert(groups[i] == rest[i - 1]);
                }
            }
            assert forall|i: int| 0 <= i < groups.len() - 1 implies rows_size(#[trigger] groups[i])
                + row_size(groups[i + 1][0]) > 30_000 by {
                if i > 0 {
                    assert(groups[i] == rest[i - 1]);
                    assert(groups[i + 1] == rest[i]);
                }
            }
        } else {
            let more = current.push(rows[0]);
            assert(more.drop_last() =~= current);
            lemma_groups(rows.drop_first(), more);
        }
    }
}

/// Every row and every cell of a table is written, in their order, in its text as in its HTML.
#[verifier::rlimit(40)]
pub proof fn law_tables_write_every_cell(
    cells: Seq<Seq<char>>,
    others: Seq<Seq<char>>,
    cell: Seq<char>,
    open: Seq<char>,
    close: Seq<char>,
    rows: Seq<Seq<Seq<char>>>,
    more: Seq<Seq<Seq<char>>>,
)
    ensures
        html_cells(cells + others, open, close) == html_cells(cells, open, close) + html_cells(
            others,
            open,
            close,
        ),
        html_cells(seq![cell], open, close) == open + web::html_text(cell) + close,
        html_rows(rows + more) == html_rows(rows) + html_rows(more),
        html_rows(seq![cells]) == "<tr>"@ + html_cells(cells, "<td>"@, "</td>"@) + "</tr>"@,
        plain_rows(rows + more) == plain_rows(rows) + plain_rows(more),
        plain_rows(seq![cells]) == text::joined(cells, " | "@) + "\n"@,
    decreases others.len() + more.len(),
{
    assert(seq![cell].drop_last() =~= Seq::<Seq<char>>::empty());
    assert(html_cells(Seq::<Seq<char>>::empty(), open, close) =~= Seq::empty());
    assert(html_cells(seq![cell], open, close) =~= open + web::html_text(cell) + close);
    assert(seq![cells].drop_last() =~= Seq::<Seq<Seq<char>>>::empty());
    assert(html_rows(Seq::<Seq<Seq<char>>>::empty()) =~= Seq::empty());
    assert(plain_rows(Seq::<Seq<Seq<char>>>::empty()) =~= Seq::empty());
    assert(html_rows(seq![cells]) =~= "<tr>"@ + html_cells(cells, "<td>"@, "</td>"@) + "</tr>"@);
    assert(plain_rows(seq![cells]) =~= text::joined(cells, " | "@) + "\n"@);
    if others.len() > 0 {
        let fewer = others.drop_last();
        law_tables_write_every_cell(cells, fewer, cell, open, close, rows, more);
        assert((cells + others).drop_last() =~= cells + fewer);
        let last = open + web::html_text(others.last()) + close;
        assert((html_cells(cells, open, close) + html_cells(fewer, open, close)) + last
            =~= html_cells(cells, open, close) + (html_cells(fewer, open, close) + last));
    } else {
        assert(cells + others =~= cells);
        assert(html_cells(cells, open, close) + Seq::<char>::empty() =~= html_cells(
            cells,
            open,
            close,
        ));
    }
    if more.len() > 0 {
        let fewer = more.drop_last();
        law_tables_write_every_cell(cells, others, cell, open, close, rows, fewer);
        assert((rows + more).drop_last() =~= rows + fewer);
        let last = "<tr>"@ + html_cells(more.last(), "<td>"@, "</td>"@) + "</tr>"@;
        assert((html_rows(rows) + html_rows(fewer)) + last =~= html_rows(rows) + (html_rows(fewer)
            + last));
        let plain = text::joined(more.last(), " | "@);
        assert((plain_rows(rows) + plain_rows(fewer)) + plain + "\n"@ =~= plain_rows(rows) + (
        plain_rows(fewer) + plain + "\n"@));
    } else {
        assert(rows + more =~= rows);
        assert(html_rows(rows) + Seq::<char>::empty() =~= html_rows(rows));
        assert(plain_rows(rows) + Seq::<char>::empty() =~= plain_rows(rows));
    }
}

/// Pages follow on each other from the first entry on; a page has at least one entry and at most a
/// hundred, and otherwise as many as asked for; and there is no page behind the last entry.
pub proof fn law_pages_follow_each_other(page: u32, limit: u32, total: int)
    requires
        1 <= page < u32::MAX,
    ensures
        page_offset(Pagination { page: 1, limit }) == 0,
        page_offset(Pagination { page: (page + 1) as u32, limit }) == page_offset(
            Pagination { page, limit },
        ) + page_limit(limit),
        1 <= page_limit(limit) <= 100,
        1 <= limit <= 100 ==> page_limit(limit) == limit,
        limit > 100 ==> page_limit(limit) == 100,
        total > 0 ==> (page_count(total, page_limit(limit)) - 1) * page_limit(limit) < total,
        total <= 0 ==> page_count(total, page_limit(limit)) == 0,
{
    let size = page_limit(limit);
    assert((page - 1 + 1) * size == (page - 1) * size + size) by (nonlinear_arith);
    if total > 0 {
        let pages = (total + size - 1) / size;
        assert((pages - 1) * size < total && pages >= 1) by (nonlinear_arith)
            requires
                size >= 1,
                total > 0,
                pages == (total + size - 1) / size,
        ;
        let counted = page_count(total, size);
        assert((counted - 1) * size <= (pages - 1) * size) by (nonlinear_arith)
            requires
                counted <= pages,
                size >= 1,
        ;
    }
}

/// Numbers are chosen by lists, whose parts count each by itself; by a number alone; and by a range,
/// which takes in both its ends and all between.
pub proof fn law_numbers_are_chosen(a: Seq<char>, b: Seq<char>, first: nat, last: nat, n: int)
    requires
        n >= 0,
        first <= usize::MAX,
        last <= usize::MAX,
    ensures
        names_index(a + ","@ + b, n) <==> names_index(a, n) || names_index(b, n),
        names_index(number::decimal(first), n) <==> n == first,
        names_index(number::decimal(first) + "-"@ + number::decimal(last), n) <==> first <= n
            <= last,
{
    reveal_strlit(",");
    reveal_strlit("-");
    assert(","@ =~= seq![',']);
    assert("-"@ =~= seq!['-']);
    let comma = seq![','];
    text::law_splitting_at_a_character(a, ',', b);
    let left = text::split_text(a, comma);
    let right = text::split_text(b, comma);
    let all = left + right;
    if names_index(a + ","@ + b, n) {
        let k = choose|k: int| 0 <= k < all.len() && part_names(#[trigger] all[k], n);
        if k < left.len() {
            assert(part_names(left[k], n));
        } else {
            assert(part_names(right[k - left.len()], n));
        }
    }
    if names_index(a, n) {
        let k = choose|k: int| 0 <= k < left.len() && part_names(#[trigger] left[k], n);
        assert(part_names(all[k], n));
    }
    if names_index(b, n) {
        let k = choose|k: int| 0 <= k < right.len() && part_names(#[trigger] right[k], n);
        assert(all[left.len() + k] == right[k]);
        assert(part_names(all[left.len() + k], n));
    }
    lemma_number_is_read(first);
    lemma_number_is_read(last);
    let one = number::decimal(first);
    let other = number::decimal(last);
    text::lemma_split_whole(one, ',');
    assert(text::split_text(one, comma)[0] == one);
    text::lemma_find_char(one, '-');
    assert(part_names(one, n) <==> n == first);
    let range = one + seq!['-'] + other;
    assert(!range.contains(',')) by {
        if range.contains(',') {
            let k = range.index_of(',');
            if k < one.len() {
                assert(one[k] == ',');
            } else if k > one.len() {
                assert(other[k - one.len() - 1] == ',');
            }
        }
    }
    text::lemma_split_whole(range, ',');
    assert(text::split_text(range, comma)[0] == range);
    text::lemma_find_char(range, '-');
    assert(range[one.len() as int] == '-');
    let at = text::find(range, seq!['-'])->0;
    if at < one.len() {
        assert(one[at] == '-');
    }
    assert(at == one.len());
    assert(range.take(at) =~= one);
    assert(range.skip(at + 1) =~= other);
    assert(part_names(range, n) <==> first <= n <= last);
}

proof fn lemma_number_is_read(n: nat)
    ensures
        number::unsigned_value(text::trimmed_white(number::decimal(n))) == Some(n),
        !number::decimal(n).contains(','),
        !number::decimal(n).contains('-'),
{
    let s = number::decimal(n);
    number::law_decimal_reads_back(n);
    number::lemma_decimal_value(n);
    assert('0' <= s[0] <= '9');
    assert('0' <= s[s.len() - 1] <= '9');
    text::law_trimming_stops(Seq::empty(), s, Seq::empty(), text::Trim::WhiteSpace);
    assert(Seq::<char>::empty() + s + Seq::<char>::empty() =~= s);
    if s.contains(',') {
        let k = s.index_of(',');
        assert('0' <= s[k] <= '9');
    }
    if s.contains('-') {
        let k = s.index_of('-');
        assert('0' <= s[k] <= '9');
    }
}

/// Only text channels and news channels can be bridged, and each of them can, under its own name.
pub proof fn law_only_text_and_news_channels(data: JsonView)
    ensures
        channel_info(data) is Ok <==> data.at("type"@) == JsonView::Number(0) || data.at("type"@)
            == JsonView::Number(5),
        channel_info(data) matches Ok(info) ==> info.0 == data.at("name"@).text_or("unknown"@)
            && info.1 == data.at("guild_id"@).as_text() && data.at("type"@) == JsonView::Number(
            info.2,
        ),
{
}

/// A room is linked only where its bridge does not exist yet, its channel is in no other bridge, and
/// Discord knows the channel.
pub proof fn law_only_free_rooms_are_linked(case: LinkCase)
    requires
        case.can_link(),
    ensures
        case.bridged_to == Some(Ok::<Option<String>, String>(None)),
        case.channels matches Some(Ok(list)) && !discord_client::is_listed(
            list@,
            case.channel_id@,
        ),
        case.verified matches Some(Ok(_)),
        case.room_id@.len() > 0 && case.room_id@[0] == '!' && case.room_id@.contains(':'),
        text::all_digits(case.channel_id@),
{
    reveal_strlit("!");
    reveal_strlit(":");
    assert(":"@ =~= seq![':']);
    text::lemma_find_char(case.room_id@, ':');
    assert(case.room_id@.subrange(0, 1)[0] == "!"@[0]);
}

/// How the settings for one direction are told.
pub open spec fn direction_line(enabled: bool, deletions: bool, typing: bool) -> Seq<char> {
    truth(enabled) + " (ModDel: "@ + truth(deletions) + ", TypingStatus: "@ + truth(typing) + ")"@
}

/// Both directions are told alike, each with its own settings, and in the list of a bridge's
/// settings each stands under its name.
pub proof fn law_settings_are_told(room: Seq<char>, bridge: BridgedRoom)
    ensures
        settings_line(bridge) == "D2M: "@ + direction_line(
            bridge.d2m_enabled,
            bridge.d2m_mod_deletions,
            bridge.d2m_typing,
        ) + " | M2D: "@ + direction_line(
            bridge.m2d_enabled,
            bridge.m2d_mod_deletions,
            bridge.m2d_typing,
        ),
        text::holds(
            config_yaml(room, bridge),
            "\n  d2m_enabled: "@ + truth(bridge.d2m_enabled),
        ),
        text::holds(
            config_yaml(room, bridge),
            "\n  m2d_enabled: "@ + truth(bridge.m2d_enabled),
        ),
        text::holds(
            config_yaml(room, bridge),
            "\n  d2m_mod_deletions: "@ + truth(bridge.d2m_mod_deletions),
        ),
        text::holds(
            config_yaml(room, bridge),
            "\n  m2d_mod_deletions: "@ + truth(bridge.m2d_mod_deletions),
        ),
        text::holds(config_yaml(room, bridge), "\n  d2m_typing: "@ + truth(bridge.d2m_typing)),
        text::holds(config_yaml(room, bridge), "\n  m2d_typing: "@ + truth(bridge.m2d_typing)),
        text::holds(config_yaml(room, bridge), "room_id: \""@ + room + "\""@),
{
    lemma_both_directions(bridge);
    let yaml = config_yaml(room, bridge);
    let w1 = "bridge_config:\n  room_id: \""@ + room + "\"\n  d2m_enabled: "@ + truth(
        bridge.d2m_enabled,
    );
    let w2 = w1 + "\n  m2d_enabled: "@ + truth(bridge.m2d_enabled);
    let w3 = w2 + "\n  d2m_mod_deletions: "@ + truth(bridge.d2m_mod_deletions);
    let w4 = w3 + "\n  m2d_mod_deletions: "@ + truth(bridge.m2d_mod_deletions);
    let w5 = w4 + "\n  d2m_typing: "@ + truth(bridge.d2m_typing);
    let w6 = w5 + "\n  m2d_typing: "@ + truth(bridge.m2d_typing);
    assert(yaml == w6);
    lemma_yaml_begins(room, truth(bridge.d2m_enabled));
    text::lemma_end_is_held(w1, "\n  m2d_enabled: "@, truth(bridge.m2d_enabled));
    text::lemma_end_is_held(w2, "\n  d2m_mod_deletions: "@, truth(bridge.d2m_mod_deletions));
    text::lemma_end_is_held(w3, "\n  m2d_mod_deletions: "@, truth(bridge.m2d_mod_deletions));
    text::lemma_end_is_held(w4, "\n  d2m_typing: "@, truth(bridge.d2m_typing));
    text::lemma_end_is_held(w5, "\n  m2d_typing: "@, truth(bridge.m2d_typing));
}

proof fn lemma_both_directions(bridge: BridgedRoom)
    ensures
        settings_line(bridge) == "D2M: "@ + direction_line(
            bridge.d2m_enabled,
            bridge.d2m_mod_deletions,
            bridge.d2m_typing,
        ) + " | M2D: "@ + direction_line(
            bridge.m2d_enabled,
            bridge.m2d_mod_deletions,
            bridge.m2d_typing,
        ),
{
    reveal_strlit(") | M2D: ");
    reveal_strlit(" | M2D: ");
    reveal_strlit(")");
    assert(") | M2D: "@ =~= ")"@ + " | M2D: "@);
    lemma_line_parts(
        "D2M: "@,
        truth(bridge.d2m_enabled),
        " (ModDel: "@,
        truth(bridge.d2m_mod_deletions),
        ", TypingStatus: "@,
        truth(bridge.d2m_typing),
        ")"@,
        " | M2D: "@,
        truth(bridge.m2d_enabled),
        truth(bridge.m2d_mod_deletions),
        truth(bridge.m2d_typing),
    );
}

proof fn lemma_line_parts(
    start: Seq<char>,
    a: Seq<char>,
    x: Seq<char>,
    b: Seq<char>,
    y: Seq<char>,
    c: Seq<char>,
    z: Seq<char>,
    between: Seq<char>,
    d: Seq<char>,
    e: Seq<char>,
    f: Seq<char>,
)
    ensures
        start + a + x + b + y + c + (z + between) + d + x + e + y + f + z == start + (a + x + b + y
            + c + z) + between + (d + x + e + y + f + z),
{
    assert(start + a + x + b + y + c + (z + between) + d + x + e + y + f + z =~= start + (a + x + b
        + y + c + z) + between + (d + x + e + y + f + z));
}

proof fn lemma_yaml_begins(room: Seq<char>, enabled: Seq<char>)
    ensures
        ({
            let start = "bridge_config:\n  room_id: \""@ + room + "\"\n  d2m_enabled: "@ + enabled;
            &&& text::holds(start, "room_id: \""@ + room + "\""@)
            &&& text::holds(start, "\n  d2m_enabled: "@ + enabled)
        }),
{
    reveal_strlit("bridge_config:\n  room_id: \"");
    reveal_strlit("bridge_config:\n  ");
    reveal_strlit("room_id: \"");
    reveal_strlit("\"");
    reveal_strlit("\"\n  d2m_enabled: ");
    reveal_strlit("\n  d2m_enabled: ");
    let start = "bridge_config:\n  room_id: \""@ + room + "\"\n  d2m_enabled: "@ + enabled;
    let head = "bridge_config:\n  "@;
    let name = "room_id: \""@ + room + "\""@;
    let first = "\n  d2m_enabled: "@ + enabled;
    assert("bridge_config:\n  room_id: \""@ =~= head + "room_id: \""@);
    assert("\"\n  d2m_enabled: "@ =~= "\""@ + "\n  d2m_enabled: "@);
    assert(start =~= head + name + first);
    text::lemma_part_is_held(head, name, first);
    text::lemma_end_is_held(head + name, "\n  d2m_enabled: "@, enabled);
    assert(head + name + first =~= head + name + "\n  d2m_enabled: "@ + enabled);
}

/// Every bridge and every invite has its row, in the order of the list: a bridge with its room, its
/// channel and its settings, an invite with its number, its room and who sent it.
pub proof fn law_every_entry_has_a_row(
    bridges: Seq<BridgedRoom>,
    invites: Seq<PendingInvite>,
    pagination: Pagination,
    total: i64,
    i: int,
)
    ensures
        0 <= i < bridges.len() ==> (bridge_list(
            Ok(bridges),
            pagination,
            total,
        ) matches ResponseView::Table { headers, rows, footer } && headers.len() == 3
            && rows.len() == bridges.len() && rows[i].len() == 3 && rows[i][0]
            == bridges[i].room_id@ && rows[i][1] == bridges[i].channel_id@ && rows[i][2]
            == settings_line(bridges[i])),
        0 <= i < invites.len() ==> (invite_list(
            Ok(invites),
            pagination,
            total,
        ) matches ResponseView::Table { headers, rows, footer } && headers.len() == 4
            && rows.len() == invites.len() && rows[i].len() == 4 && rows[i][0]
            == number::signed_decimal(invites[i].id as int) && rows[i][1] == invites[i].room_id@
            && (invites[i].room_name matches Some(name) ==> rows[i][2] == name@) && rows[i][3]
            == invites[i].sender@),
        bridge_list(Ok(Seq::empty()), pagination, total) is Text,
        invite_list(Ok(Seq::empty()), pagination, total) is Text,
{
}

/// A list says how many entries there are in all; where there are several pages, it says which one
/// is shown and how many there are.
pub proof fn law_lists_say_where_they_are(what: Seq<char>, page: u32, limit: u32, total: i64)
    ensures
        text::holds(list_footer(what, page, limit, total), number::signed_decimal(total as int)),
        total as int > page_limit(limit) ==> ("Page "@ + number::decimal(page as nat)
            + " of "@).is_prefix_of(list_footer(what, page, limit, total)),
        0 < total as int <= page_limit(limit) ==> ("Total "@ + what + ": "@).is_prefix_of(
            list_footer(what, page, limit, total),
        ),
{
    let size = page_limit(limit);
    let pages = page_count(total as int, size);
    let footer = list_footer(what, page, limit, total);
    let number = number::signed_decimal(total as int);
    if total > 0 {
        let count = (total + size - 1) / size;
        assert(total > size ==> count > 1) by (nonlinear_arith)
            requires
                count == (total + size - 1) / size,
                size >= 1,
        ;
        assert(total <= size ==> count <= 1) by (nonlinear_arith)
            requires
                count == (total + size - 1) / size,
                size >= 1,
                total > 0,
        ;
    }
    if pages > 1 {
        let start = "Page "@ + number::decimal(page as nat) + " of "@;
        let before = start + number::decimal(pages as nat) + " (Total: "@;
        text::lemma_part_is_held(before, number, "). Use --page <n> to navigate."@);
        assert(footer.subrange(0, start.len() as int) =~= start);
    } else {
        let start = "Total "@ + what + ": "@;
        text::lemma_part_is_held(start, number, Seq::empty());
        assert(footer =~= start + number + Seq::empty());
        assert(footer.subrange(0, start.len() as int) =~= start);
    }
}

/// What was done with invites is told by its number, and every failure among them is told too.
pub proof fn law_every_failure_is_told(joined: nat, errors: Seq<Seq<char>>, i: int)
    requires
        joined > 0,
        0 <= i < errors.len(),
    ensures
        ("Accepted "@ + number::decimal(joined)).is_prefix_of(accepted_text(joined, errors)),
        text::joined(errors, "\n"@).is_suffix_of(accepted_text(joined, errors)),
        accepted_text(0, errors) == accepted_text(0, Seq::empty()),
{
    let all = accepted_text(joined, errors);
    let start = "Accepted "@ + number::decimal(joined);
    let end = text::joined(errors, "\n"@);
    assert(all.subrange(0, start.len() as int) =~= start);
    assert(all.subrange(all.len() - end.len(), all.len() as int) =~= end);
}

/// The status of a bridge names its room, its channel, the channel's name and how many emotes are
/// kept; where the channel cannot be reached, it says why.
pub proof fn law_status_names_both_ends(
    room: Seq<char>,
    channel: Seq<char>,
    info: ChannelInfo,
    emojis: nat,
    error: Seq<char>,
)
    ensures
        ("matrix_room: \""@ + room + "\""@).is_prefix_of(status_yaml(room, channel, info, emojis)),
        text::holds(status_yaml(room, channel, info, emojis), "id: \""@ + channel + "\""@),
        text::holds(status_yaml(room, channel, info, emojis), "name: \""@ + info.name@ + "\""@),
        text::holds(
            status_yaml(room, channel, info, emojis),
            "guild_id: \""@ + guild_text(info.guild_id) + "\""@,
        ),
        text::holds(
            status_yaml(room, channel, info, emojis),
            "custom_emojis_cached: "@ + number::decimal(emojis),
        ),
        text::holds(
            unreachable_yaml(room, channel, error),
            "discord_channel: \""@ + channel + "\""@,
        ),
        text::holds(unreachable_yaml(room, channel, error), "error: \""@ + error + "\""@),
{
    lemma_status_literals();
    let quote = "\""@;
    let a = "matrix_room: \""@ + room + quote;
    let b = "id: \""@ + channel + quote;
    let c = "name: \""@ + info.name@ + quote;
    let d = "guild_id: \""@ + guild_text(info.guild_id) + quote;
    let e = "custom_emojis_cached: "@ + number::decimal(emojis);
    let x = "\ndiscord_channel:\n  "@;
    let end = "\nstatus: \"Active\""@;
    lemma_status_regroups(
        "matrix_room: \""@,
        room,
        quote,
        x,
        "id: \""@,
        channel,
        "\n  "@,
        "name: \""@,
        info.name@,
        "\n"@,
        "guild_id: \""@,
        guild_text(info.guild_id),
        "custom_emojis_cached: "@,
        number::decimal(emojis),
        end,
    );
    lemma_status_holds(a, x, b, "\n  "@, c, "\n"@, d, "\n"@, e, end);
    let f = "discord_channel: \""@ + channel + quote;
    let g = "\nstatus: \"Discord channel not accessible\"\n"@;
    let h = "error: \""@ + error + quote;
    lemma_unreachable_regroups(
        "matrix_room: \""@,
        room,
        quote,
        "\n"@,
        "discord_channel: \""@,
        channel,
        g,
        "error: \""@,
        error,
    );
    let none = Seq::<char>::empty();
    lemma_status_holds(a, "\n"@, f, g, h, none, none, none, none, none);
    assert(a + "\n"@ + f + g + h + none + none + none + none + none =~= a + "\n"@ + f + g + h);
}

proof fn lemma_status_literals()
    ensures
        "\"\ndiscord_channel:\n  id: \""@ == "\""@ + "\ndiscord_channel:\n  "@ + "id: \""@,
        "\"\n  name: \""@ == "\""@ + "\n  "@ + "name: \""@,
        "\"\nguild_id: \""@ == "\""@ + "\n"@ + "guild_id: \""@,
        "\"\ncustom_emojis_cached: "@ == "\""@ + "\n"@ + "custom_emojis_cached: "@,
        "\"\ndiscord_channel: \""@ == "\""@ + "\n"@ + "discord_channel: \""@,
        "\"\nstatus: \"Discord channel not accessible\"\nerror: \""@ == "\""@
            + "\nstatus: \"Discord channel not accessible\"\n"@ + "error: \""@,
{
    reveal_strlit("\"");
    reveal_strlit("\"\ndiscord_channel:\n  id: \"");
    reveal_strlit("\ndiscord_channel:\n  ");
    reveal_strlit("id: \"");
    reveal_strlit("\"\n  name: \"");
    reveal_strlit("\n  ");
    reveal_strlit("name: \"");
    reveal_strlit("\"\nguild_id: \"");
    reveal_strlit("guild_id: \"");
    reveal_strlit("\n");
    reveal_strlit("\"\ncustom_emojis_cached: ");
    reveal_strlit("custom_emojis_cached: ");
    reveal_strlit("\"\ndiscord_channel: \"");
    reveal_strlit("discord_channel: \"");
    reveal_strlit("\"\nstatus: \"Discord channel not accessible\"\nerror: \"");
    reveal_strlit("\nstatus: \"Discord channel not accessible\"\n");
    reveal_strlit("error: \"");
    assert("\"\ndiscord_channel:\n  id: \""@ =~= "\""@ + "\ndiscord_channel:\n  "@ + "id: \""@);
    assert("\"\n  name: \""@ =~= "\""@ + "\n  "@ + "name: \""@);
    assert("\"\nguild_id: \""@ =~= "\""@ + "\n"@ + "guild_id: \""@);
    assert("\"\ncustom_emojis_cached: "@ =~= "\""@ + "\n"@ + "custom_emojis_cached: "@);
    assert("\"\ndiscord_channel: \""@ =~= "\""@ + "\n"@ + "discord_channel: \""@);
    assert("\"\nstatus: \"Discord channel not accessible\"\nerror: \""@ =~= "\""@
        + "\nstatus: \"Discord channel not accessible\"\n"@ + "error: \""@);
}

#[verifier::rlimit(40)]
proof fn lemma_status_regroups(
    matrix: Seq<char>,
    room: Seq<char>,
    quote: Seq<char>,
    x: Seq<char>,
    id: Seq<char>,
    channel: Seq<char>,
    y: Seq<char>,
    called: Seq<char>,
    name: Seq<char>,
    z: Seq<char>,
    of: Seq<char>,
    guild: Seq<char>,
    cached: Seq<char>,
    emojis: Seq<char>,
    end: Seq<char>,
)
    ensures
        matrix + room + (quote + x + id) + channel + (quote + y + called) + name + (quote + z + of)
            + guild + (quote + z + cached) + emojis + end == (matrix + room + quote) + x + (id
            + channel + quote) + y + (called + name + quote) + z + (of + guild + quote) + z + (cached
            + emojis) + end,
{
    assert(matrix + room + (quote + x + id) + channel + (quote + y + called) + name + (quote + z
        + of) + guild + (quote + z + cached) + emojis + end =~= (matrix + room + quote) + x + (id
        + channel + quote) + y + (called + name + quote) + z + (of + guild + quote) + z + (cached
        + emojis) + end);
}

proof fn lemma_unreachable_regroups(
    matrix: Seq<char>,
    room: Seq<char>,
    quote: Seq<char>,
    z: Seq<char>,
    id: Seq<char>,
    channel: Seq<char>,
    g: Seq<char>,
    reason: Seq<char>,
    error: Seq<char>,
)
    ensures
        matrix + room + (quote + z + id) + channel + (quote + g + reason) + error + quote == (matrix
            + room + quote) + z + (id + channel + quote) + g + (reason + error + quote),
{
    assert(matrix + room + (quote + z + id) + channel + (quote + g + reason) + error + quote =~= (
    matrix + room + quote) + z + (id + channel + quote) + g + (reason + error + quote));
}

proof fn lemma_status_holds(
    a: Seq<char>,
    x: Seq<char>,
    b: Seq<char>,
    y: Seq<char>,
    c: Seq<char>,
    z: Seq<char>,
    d: Seq<char>,
    u: Seq<char>,
    e: Seq<char>,
    end: Seq<char>,
)
    ensures
        ({
            let whole = a + x + b + y + c + z + d + u + e + end;
            &&& a.is_prefix_of(whole)
            &&& text::holds(whole, b)
            &&& text::holds(whole, c)
            &&& text::holds(whole, d)
            &&& text::holds(whole, e)
        }),
{
    let whole = a + x + b + y + c + z + d + u + e + end;
    assert(whole.subrange(0, a.len() as int) =~= a);
    text::lemma_last_is_held(a + x, b);
    text::lemma_end_is_held(a + x + b, y, c);
    text::lemma_last_is_held(a + x + b + y, c);
    text::lemma_end_is_held(a + x + b + y + c, z, d);
    text::lemma_last_is_held(a + x + b + y + c + z, d);
    text::lemma_end_is_held(a + x + b + y + c + z + d, u, e);
    text::lemma_last_is_held(a + x + b + y + c + z + d + u, e);
    text::lemma_last_is_held(a + x + b + y + c + z + d + u + e, end);
}

/// A command in the room for commands is taken word by word, with or without white space before it;
/// one with broken quotes is garbled.
pub proof fn law_commands_are_taken(
    config: ConfigView,
    room: Seq<char>,
    white: Seq<char>,
    line: Seq<char>,
    words: Seq<Seq<char>>,
)
    requires
        config.config_room_id == Some(room),
        forall|i: int| 0 <= i < white.len() ==> text::is_white_space(#[trigger] white[i]),
        line.len() > 0,
        !text::is_white_space(line.last()),
        words.len() > 0,
    ensures
        admin_route(config, room, white + (seq!['!'] + line), Some(words)) == AdminRouteView::Words(
            seq!["bot"@] + words,
        ),
        admin_route(config, room, white + (seq!['!'] + line), None) == AdminRouteView::Garbled,
        !text::is_white_space(line[0]) && line[0] != '!' ==> admin_route(
            config,
            room,
            white + line,
            Some(words),
        ) == AdminRouteView::Ignore,
{
    reveal_strlit("!");
    let none = Seq::<char>::empty();
    let command = seq!['!'] + line;
    text::law_trimming_stops(white, command, none, text::Trim::WhiteSpace);
    assert(white + command + none =~= white + command);
    assert(command.subrange(0, 1) =~= "!"@);
    if !text::is_white_space(line[0]) {
        text::law_trimming_stops(white, line, none, text::Trim::WhiteSpace);
        assert(white + line + none =~= white + line);
        if "!"@.is_prefix_of(line) {
            assert(line.subrange(0, 1)[0] == line[0]);
        }
    }
}

/// A link is said to have succeeded exactly where nothing stood against it, and then both ends are
/// named; an unlink exactly where the room was bridged and its bridge was removed.
pub proof fn law_success_is_told_truly(
    case: LinkCase,
    room: Seq<char>,
    channel: Result<Option<String>, String>,
    removed: Result<(), String>,
)
    ensures
        "Successfully"@.is_prefix_of(case.answer()) <==> case.can_link() && !(
        case.added matches Some(Err(_))),
        case.can_link() && !(case.added matches Some(Err(_))) ==> text::holds(
            case.answer(),
            case.room_id@,
        ) && text::holds(case.answer(), case.channel_id@) && text::holds(
            case.answer(),
            case.verified->0->Ok_0.name@,
        ),
        "Successfully"@.is_prefix_of(unlink_text(room, channel, removed)) <==> (channel matches Ok(
            Some(_),
        )) && removed is Ok,
        (channel matches Ok(Some(_))) && removed is Ok ==> text::holds(
            unlink_text(room, channel, removed),
            room,
        ) && text::holds(unlink_text(room, channel, removed), channel->Ok_0->0@),
{
    reveal_strlit("Successfully");
    reveal_strlit("Successfully linked!\n\nMatrix: `");
    reveal_strlit("Successfully unlinked Matrix room `");
    reveal_strlit("Invalid Matrix room ID format. Should be like: !abc123:matrix.org");
    reveal_strlit("Invalid Discord channel ID format. Should be numeric.");
    reveal_strlit("Database error: ");
    reveal_strlit("Matrix room `");
    reveal_strlit("Discord channel `");
    reveal_strlit("Failed to verify Discord channel `");
    reveal_strlit("Failed to create bridge: ");
    reveal_strlit("Failed to remove bridge: ");
    let answer = case.answer();
    if case.can_link() && !(case.added matches Some(Err(_))) {
        let name = case.verified->0->Ok_0.name@;
        let first = "Successfully linked!\n\nMatrix: `"@;
        assert(answer.subrange(0, 12) =~= "Successfully"@);
        let a = first + case.room_id@;
        let b = a + "`\nDiscord: #"@ + name;
        let c = b + " (`"@ + case.channel_id@;
        assert(answer == c + "`)"@);
        text::lemma_last_is_held(first, case.room_id@);
        text::lemma_last_is_held(a + "`\nDiscord: #"@, name);
        text::lemma_end_is_held(a, "`\nDiscord: #"@, name);
        text::lemma_end_is_held(b, " (`"@, case.channel_id@);
        text::lemma_last_is_held(b + " (`"@, case.channel_id@);
        text::lemma_last_is_held(c, "`)"@);
    } else {
        lemma_other_start(answer);
    }
    let other = unlink_text(room, channel, removed);
    if (channel matches Ok(Some(_))) && removed is Ok {
        let c = channel->Ok_0->0@;
        let first = "Successfully unlinked Matrix room `"@;
        assert(other.subrange(0, 12) =~= "Successfully"@);
        let a = first + room;
        let b = a + "` from Discord channel `"@ + c;
        text::lemma_last_is_held(first, room);
        text::lemma_end_is_held(a, "` from Discord channel `"@, c);
        text::lemma_last_is_held(a + "` from Discord channel `"@, c);
        text::lemma_last_is_held(b, "`"@);
    } else {
        lemma_other_start(other);
    }
}

proof fn lemma_other_start(s: Seq<char>)
    requires
        s.len() > 0 ==> s[0] != 'S',
    ensures
        !"Successfully"@.is_prefix_of(s),
{
    reveal_strlit("Successfully");
    if "Successfully"@.is_prefix_of(s) {
        assert(s.subrange(0, 12)[0] == s[0]);
    }
}

/// A table begins with its headers, over a rule as wide as they are many, and goes on with its rows;
/// a footer comes last, and in a table of several messages only the last has one.
pub proof fn law_tables_have_their_parts(
    headers: Seq<Seq<char>>,
    rows: Seq<Seq<Seq<char>>>,
    footer: Seq<char>,
    i: int,
)
    ensures
        (text::joined(headers, " | "@) + "\n"@).is_prefix_of(table_message(headers, rows, None).0),
        plain_rows(rows).is_suffix_of(table_message(headers, rows, None).0),
        text::holds(
            table_message(headers, rows, None).1,
            html_cells(headers, "<th>"@, "</th>"@),
        ),
        text::holds(table_message(headers, rows, None).1, html_rows(rows)),
        table_message(headers, rows, None).0.is_prefix_of(
            table_message(headers, rows, Some(footer)).0,
        ),
        footer.is_suffix_of(table_message(headers, rows, Some(footer)).0),
        rows.len() > 0 ==> table_messages(headers, rows, Some(footer)).len() == row_groups(
            rows,
            Seq::empty(),
        ).len(),
        rows.len() > 0 && 0 <= i < row_groups(rows, Seq::empty()).len() - 1 ==> table_messages(
            headers,
            rows,
            Some(footer),
        )[i] == table_message(headers, row_groups(rows, Seq::empty())[i], None),
        rows.len() > 0 && i == row_groups(rows, Seq::empty()).len() - 1 && i >= 0
            ==> table_messages(headers, rows, Some(footer))[i] == table_message(
            headers,
            row_groups(rows, Seq::empty())[i],
            Some(footer),
        ),
{
    let bare = table_message(headers, rows, None);
    let full = table_message(headers, rows, Some(footer));
    let start = text::joined(headers, " | "@) + "\n"@;
    let lines = plain_rows(rows);
    assert(bare.0.subrange(0, start.len() as int) =~= start);
    assert(bare.0.subrange(bare.0.len() - lines.len(), bare.0.len() as int) =~= lines);
    assert(full.0.subrange(0, bare.0.len() as int) =~= bare.0);
    assert(full.0.subrange(full.0.len() - footer.len(), full.0.len() as int) =~= footer);
    let head = html_cells(headers, "<th>"@, "</th>"@);
    let open = "<table><thead><tr>"@;
    text::lemma_last_is_held(open, head);
    text::lemma_end_is_held(open + head, "</tr></thead><tbody>"@, html_rows(rows));
    text::lemma_last_is_held(open + head + "</tr></thead><tbody>"@, html_rows(rows));
    text::lemma_last_is_held(
        open + head + "</tr></thead><tbody>"@ + html_rows(rows),
        "</tbody></table>"@,
    );
}

/// A setting is switched by eight words, four for each way, in capitals or not, and by no other.
pub proof fn law_words_for_truth(word: Seq<char>, same: Seq<char>)
    requires
        text::lowered(word) == text::lowered(same),
    ensures
        truth_of(word) == truth_of(same),
        truth_of("yes"@) == Some(true),
        truth_of("on"@) == Some(true),
        truth_of("1"@) == Some(true),
        truth_of("no"@) == Some(false),
        truth_of("off"@) == Some(false),
        truth_of("0"@) == Some(false),
        word.len() > 5 || word.len() == 0 ==> truth_of(word) is None,
{
    reveal_strlit("true");
    reveal_strlit("1");
    reveal_strlit("yes");
    reveal_strlit("on");
    reveal_strlit("false");
    reveal_strlit("0");
    reveal_strlit("no");
    reveal_strlit("off");
    assert(text::lowered("yes"@) =~= "yes"@);
    assert(text::lowered("on"@) =~= "on"@);
    assert(text::lowered("1"@) =~= "1"@);
    assert(text::lowered("no"@) =~= "no"@);
    assert(text::lowered("off"@) =~= "off"@);
    assert(text::lowered("0"@) =~= "0"@);
    assert("true"@.len() == 4 && "false"@.len() == 5 && "yes"@.len() == 3 && "off"@.len() == 3);
    assert("on"@[1] == 'n' && "no"@[1] == 'o' && "1"@[0] == '1' && "0"@[0] == '0');
    assert("yes"@[0] == 'y' && "off"@[0] == 'o');
    assert(text::lowered(word).len() == word.len());
}

/// Invites are chosen by their number, and no number beyond the largest is read.
pub proof fn law_invites_are_chosen_by_number(input: Seq<char>, id: i64)
    ensures
        is_chosen(input, id) <==> 1 <= id <= 99_999_999 && names_index(input, id as int),
{
}

} // verus!

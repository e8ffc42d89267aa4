//! Replies to commands, cut into messages that a homeserver accepts.

use vstd::prelude::*;
use vstd::string::*;
use vstd::utf8::encode_utf8;

use crate::markdown;
use crate::number;
use crate::text;
use crate::text::Trim;
use crate::web;

verus! {

/// How many bytes of text a message may have.
pub const MAX_MESSAGE_SIZE: usize = 30_000;

/// How many characters at the beginning of `s` fit into `limit` bytes.
pub open spec fn fitting(s: Seq<char>, limit: int) -> int
    decreases s.len(),
{
    if s.len() == 0 || number::utf8_len(seq![s[0]]) > limit {
        0
    } else {
        1 + fitting(s.drop_first(), limit - number::utf8_len(seq![s[0]]))
    }
}

/// What fits does fit, is no longer than the text, and is not nothing where the limit leaves room
/// for a character.
pub proof fn lemma_fitting(s: Seq<char>, limit: int)
    requires
        limit >= 0,
    ensures
        0 <= fitting(s, limit) <= s.len(),
        number::utf8_len(s.take(fitting(s, limit))) <= limit,
        s.len() > 0 && limit >= 4 ==> fitting(s, limit) >= 1,
    decreases s.len(),
{
    let n = fitting(s, limit);
    if s.len() == 0 || number::utf8_len(seq![s[0]]) > limit {
        assert(s.take(0) =~= Seq::<char>::empty());
        assert(vstd::utf8::encode_utf8(Seq::<char>::empty()).len() == 0);
        if s.len() > 0 {
            number::lemma_utf8_len_push(Seq::<char>::empty(), s[0]);
        }
    } else {
        let width = number::utf8_len(seq![s[0]]) as int;
        lemma_fitting(s.drop_first(), limit - width);
        assert(s.take(n) =~= seq![s[0]] + s.drop_first().take(n - 1));
        number::lemma_encode_concat(seq![s[0]], s.drop_first().take(n - 1));
    }
}

/// Counts how many characters at the beginning of `chars`, from `from` on, fit into `limit` bytes.
pub fn count_fitting(chars: &Vec<char>, from: usize, limit: usize) -> (n: usize)
    requires
        from <= chars@.len(),
    ensures
        n == fitting(chars@.skip(from as int), limit as int),
        from + n <= chars@.len(),
{
    let length: usize = chars.len();
    let mut left: usize = limit;
    let mut i: usize = from;
    let ghost goal = fitting(chars@.skip(from as int), limit as int);
    while i < length
        invariant
            length == chars@.len(),
            from <= i <= length,
            goal == fitting(chars@.skip(from as int), limit as int),
            i - from + fitting(chars@.skip(i as int), left as int) == goal,
        decreases length - i,
    {
        let width: usize = number::char_width(chars[i]);
        assert(chars@.skip(i as int)[0] == chars@[i as int]);
        assert(chars@.skip(i as int).drop_first() =~= chars@.skip(i + 1));
        if width > left {
            return i - from;
        }
        left = left - width;
        i += 1;
    }
    i - from
}

/// A line cut into pieces that each fit into a message, and what is left of it in the end.
pub open spec fn cut_line(line: Seq<char>) -> (Seq<Seq<char>>, Seq<char>)
    decreases line.len(),
{
    if number::utf8_len(line) <= MAX_MESSAGE_SIZE || fitting(line, MAX_MESSAGE_SIZE as int) < 1 {
        (Seq::empty(), line)
    } else {
        let n = fitting(line, MAX_MESSAGE_SIZE as int);
        proof {
            lemma_fitting(line, MAX_MESSAGE_SIZE as int);
        }
        let rest = cut_line(line.skip(n));
        (seq![line.take(n)] + rest.0, rest.1)
    }
}

/// The text of a line with its end.
pub open spec fn ended(line: Seq<char>) -> Seq<char> {
    line.push('\n')
}

/// The messages for the given lines, where `current` is what the message begun so far holds.
pub open spec fn message_texts(lines: Seq<Seq<char>>, current: Seq<char>) -> Seq<Seq<char>>
    decreases lines.len(),
{
    if lines.len() == 0 {
        one_or_none(current)
    } else {
        let line = lines[0];
        let rest = lines.drop_first();
        if number::utf8_len(current) + number::utf8_len(line) > MAX_MESSAGE_SIZE {
            let cut = cut_line(line);
            let begun = if cut.1.len() > 0 || cut.0.len() == 0 {
                ended(cut.1)
            } else {
                Seq::empty()
            };
            one_or_none(current) + cut.0 + message_texts(rest, begun)
        } else {
            message_texts(rest, current + ended(line))
        }
    }
}

/// The message that was begun, unless it is empty.
pub open spec fn one_or_none(current: Seq<char>) -> Seq<Seq<char>> {
    if current.len() > 0 {
        seq![current]
    } else {
        Seq::empty()
    }
}

/// The messages for a text.
pub open spec fn split_messages(s: Seq<char>) -> Seq<Seq<char>> {
    message_texts(text::lines_of(s), Seq::empty())
}

/// A message as plain text and as HTML: in a code block of `lang`, or else as Markdown whose line
/// ends are kept.
pub open spec fn formatted(s: Seq<char>, lang: Option<Seq<char>>) -> (Seq<char>, Seq<char>) {
    let plain = text::trimmed_end(s, Trim::WhiteSpace);
    let html = match lang {
        Some(l) => "<pre><code class=\"language-"@ + l + "\">"@ + web::html_text(plain)
            + "</code></pre>"@,
        None => markdown::plain_html(text::replaced(plain, "\n"@, "  \n"@)),
    };
    (plain, html)
}

/// The texts of a list of messages.
pub open spec fn message_views(messages: Seq<(String, String)>) -> Seq<(Seq<char>, Seq<char>)> {
    Seq::new(messages.len(), |i: int| (messages[i].0@, messages[i].1@))
}

/// Messages as plain text and as HTML.
pub open spec fn all_formatted(messages: Seq<Seq<char>>, lang: Option<Seq<char>>) -> Seq<
    (Seq<char>, Seq<char>),
> {
    Seq::new(messages.len(), |i: int| formatted(messages[i], lang))
}

/// The text of an optional string slice.
pub open spec fn opt_str(s: Option<&str>) -> Option<Seq<char>> {
    match s {
        Some(value) => Some(value@),
        None => None,
    }
}

/// Gives a message as plain text and as HTML.
pub fn format_text_chunk(s: &str, lang: Option<&str>) -> (res: (String, String))
    ensures
        (res.0@, res.1@) == formatted(s@, opt_str(lang)),
{
    let plain = text::trim_end(s, Trim::WhiteSpace);
    let html = match lang {
        Some(l) => "<pre><code class=\"language-".to_owned().concat(l).concat("\">").concat(
            web::escape_html(plain.as_str()).as_str(),
        ).concat("</code></pre>"),
        None => {
            proof {
                reveal_strlit("\n");
            }
            let document = text::replace(plain.as_str(), "\n", "  \n");
            markdown::to_html(document.as_str())
        },
    };
    (plain, html)
}

/// Cuts a text into messages.
pub fn split_text_messages(s: &str) -> (messages: Vec<String>)
    ensures
        text::texts(messages@) == split_messages(s@),
{
    let lines = text::lines(s);
    let count: usize = lines.len();
    let ghost views = text::texts(lines@);
    let ghost goal = split_messages(s@);
    let mut messages: Vec<String> = Vec::new();
    let mut current = String::new();
    let mut i: usize = 0;
    proof {
        assert(views.skip(0) =~= views);
        assert(text::texts(messages@) + goal =~= goal);
        reveal_strlit("\n");
        assert("\n"@ =~= seq!['\n']);
    }
    while i < count
        invariant
            count == lines@.len(),
            views == text::texts(lines@),
            i <= count,
            text::texts(messages@) + message_texts(views.skip(i as int), current@) == goal,
        decreases count - i,
    {
        let line = &lines[i];
        let ghost before = text::texts(messages@);
        let ghost begun = current@;
        proof {
            assert(views.skip(i as int)[0] == line@);
            assert(views.skip(i as int).drop_first() =~= views.skip(i + 1));
        }
        let size: usize = number::byte_len(line.as_str());
        let held: usize = number::byte_len(current.as_str());
        if size > MAX_MESSAGE_SIZE || held > MAX_MESSAGE_SIZE - size {
            if held > 0 {
                proof {
                    lemma_not_empty(begun);
                }
                messages.push(current);
            }
            proof {
                lemma_not_empty(begun);
                assert(text::texts(messages@) =~= before + one_or_none(begun));
            }
            let ghost flushed = text::texts(messages@);
            let (pieces, rest) = cut_long_line(line.as_str());
            let piece_count: usize = pieces.len();
            let mut k: usize = 0;
            let ghost piece_views = text::texts(pieces@);
            assert(flushed + piece_views.take(0) =~= flushed);
            while k < piece_count
                invariant
                    piece_count == pieces@.len(),
                    piece_views == text::texts(pieces@),
                    k <= piece_count,
                    text::texts(messages@) == flushed + piece_views.take(k as int),
                decreases piece_count - k,
            {
                let ghost so_far = text::texts(messages@);
                messages.push(pieces[k].clone());
                proof {
                    assert(text::texts(messages@) =~= so_far.push(piece_views[k as int]));
                    assert(piece_views.take(k + 1) =~= piece_views.take(k as int).push(
                        piece_views[k as int],
                    ));
                    assert(so_far.push(piece_views[k as int]) =~= flushed + piece_views.take(k + 1));
                }
                k += 1;
            }
            assert(piece_views.take(piece_count as int) =~= piece_views);
            let left: usize = number::byte_len(rest.as_str());
            proof {
                lemma_not_empty(rest@);
            }
            if left > 0 || piece_count == 0 {
                current = rest;
                current.push('\n');
            } else {
                current = String::new();
            }
            proof {
                let tail = message_texts(views.skip(i + 1), current@);
                assert(((before + one_or_none(begun)) + piece_views) + tail =~= before + (
                one_or_none(begun) + piece_views + tail));
            }
        } else {
            current.append(line.as_str());
            current.push('\n');
            assert(current@ =~= begun + ended(line@));
        }
        i += 1;
    }
    let ghost begun = current@;
    let ghost before = text::texts(messages@);
    proof {
        lemma_not_empty(begun);
        assert(views.skip(count as int) =~= Seq::<Seq<char>>::empty());
    }
    if number::byte_len(current.as_str()) > 0 {
        messages.push(current);
        assert(text::texts(messages@) =~= before + seq![begun]);
    } else {
        assert(before + Seq::<Seq<char>>::empty() =~= before);
    }
    messages
}

/// A text has characters if it has bytes.
proof fn lemma_not_empty(s: Seq<char>)
    ensures
        s.len() > 0 <==> number::utf8_len(s) > 0,
{
    if s.len() > 0 {
        number::lemma_utf8_len_push(s.drop_last(), s.last());
        assert(s =~= s.drop_last().push(s.last()));
    } else {
        assert(s =~= Seq::<char>::empty());
        assert(vstd::utf8::encode_utf8(Seq::<char>::empty()).len() == 0);
    }
}

/// Cuts a line into pieces that fit into messages, and gives what is left.
pub fn cut_long_line(line: &str) -> (res: (Vec<String>, String))
    ensures
        (text::texts(res.0@), res.1@) == cut_line(line@),
{
    let chars = text::chars_of(line);
    let length: usize = chars.len();
    let ghost goal = cut_line(line@);
    let mut pieces: Vec<String> = Vec::new();
    let mut from: usize = 0;
    let mut rest = line.to_owned();
    proof {
        assert(line@.skip(0) =~= line@);
        assert(text::texts(pieces@) + goal.0 =~= goal.0);
    }
    while number::byte_len(rest.as_str()) > MAX_MESSAGE_SIZE
        invariant
            chars@ == line@,
            length == chars@.len(),
            from <= length,
            rest@ == line@.skip(from as int),
            text::texts(pieces@) + cut_line(rest@).0 == goal.0,
            cut_line(rest@).1 == goal.1,
        decreases length - from,
    {
        let ghost before = text::texts(pieces@);
        let n: usize = count_fitting(&chars, from, MAX_MESSAGE_SIZE);
        proof {
            lemma_not_empty(rest@);
            lemma_fitting(rest@, MAX_MESSAGE_SIZE as int);
        }
        let piece = text::string_of(&chars, from, from + n);
        assert(piece@ =~= rest@.take(n as int));
        pieces.push(piece);
        let ghost was = rest@;
        from = from + n;
        rest = text::string_of(&chars, from, length);
        proof {
            assert(rest@ =~= was.skip(n as int));
            assert(rest@ =~= line@.skip(from as int));
            assert(text::texts(pieces@) =~= before + seq![was.take(n as int)]);
            assert((before + seq![was.take(n as int)]) + cut_line(rest@).0 =~= before + (seq![
                was.take(n as int),
            ] + cut_line(rest@).0));
        }
    }
    assert(text::texts(pieces@) + Seq::<Seq<char>>::empty() =~= text::texts(pieces@));
    (pieces, rest)
}

/// Whether a message that is being collected may still be sent: nothing is in it, or whole lines
/// that fit into a message without the last line end.
pub open spec fn is_open_message(current: Seq<char>) -> bool {
    current.len() > 0 ==> current.last() == '\n' && number::utf8_len(current) <= MAX_MESSAGE_SIZE + 1
}

/// Text without white space at its end is no longer than the text, and shorter where the text ends
/// in a line end.
proof fn lemma_trimmed_len(s: Seq<char>)
    ensures
        number::utf8_len(text::trimmed_end(s, Trim::WhiteSpace)) <= number::utf8_len(s),
        s.len() > 0 && s.last() == '\n' ==> number::utf8_len(
            text::trimmed_end(s, Trim::WhiteSpace),
        ) < number::utf8_len(s),
    decreases s.len(),
{
    if s.len() > 0 && Trim::WhiteSpace.takes(s.last()) {
        lemma_trimmed_len(s.drop_last());
        number::lemma_utf8_len_push(s.drop_last(), s.last());
        assert(s =~= s.drop_last().push(s.last()));
    }
}

/// The pieces of a line fit into a message.
proof fn lemma_cut_line_fits(line: Seq<char>)
    ensures
        forall|i: int|
            0 <= i < cut_line(line).0.len() ==> number::utf8_len(#[trigger] cut_line(line).0[i])
                <= MAX_MESSAGE_SIZE,
        number::utf8_len(cut_line(line).1) <= MAX_MESSAGE_SIZE,
    decreases line.len(),
{
    lemma_fitting(line, MAX_MESSAGE_SIZE as int);
    lemma_not_empty(line);
    if number::utf8_len(line) > MAX_MESSAGE_SIZE {
        let n = fitting(line, MAX_MESSAGE_SIZE as int);
        let rest = cut_line(line.skip(n));
        lemma_cut_line_fits(line.skip(n));
        assert forall|i: int| 0 <= i < cut_line(line).0.len() implies number::utf8_len(
            #[trigger] cut_line(line).0[i],
        ) <= MAX_MESSAGE_SIZE by {
            if i > 0 {
                assert(cut_line(line).0[i] == rest.0[i - 1]);
            }
        }
    }
}

/// Every message fits once the white space at its end is gone.
proof fn lemma_messages_fit(lines: Seq<Seq<char>>, current: Seq<char>)
    requires
        is_open_message(current),
    ensures
        forall|i: int|
            0 <= i < message_texts(lines, current).len() ==> number::utf8_len(
                text::trimmed_end(#[trigger] message_texts(lines, current)[i], Trim::WhiteSpace),
            ) <= MAX_MESSAGE_SIZE,
    decreases lines.len(),
{
    lemma_trimmed_len(current);
    if lines.len() > 0 {
        let line = lines[0];
        let rest = lines.drop_first();
        if number::utf8_len(current) + number::utf8_len(line) > MAX_MESSAGE_SIZE {
            let cut = cut_line(line);
            let begun = if cut.1.len() > 0 || cut.0.len() == 0 {
                ended(cut.1)
            } else {
                Seq::empty()
            };
            lemma_cut_line_fits(line);
            number::lemma_utf8_len_push(cut.1, '\n');
            lemma_newline_width();
            lemma_messages_fit(rest, begun);
            let first = one_or_none(current);
            let tail = message_texts(rest, begun);
            let all = first + cut.0 + tail;
            assert forall|i: int| 0 <= i < all.len() implies number::utf8_len(
                text::trimmed_end(#[trigger] all[i], Trim::WhiteSpace),
            ) <= MAX_MESSAGE_SIZE by {
                if i < first.len() {
                    assert(all[i] == current);
                } else if i < first.len() + cut.0.len() {
                    assert(all[i] == cut.0[i - first.len()]);
                    lemma_trimmed_len(all[i]);
                } else {
                    assert(all[i] == tail[i - first.len() - cut.0.len()]);
                }
            }
            assert(message_texts(lines, current) == all);
        } else {
            let longer = current + ended(line);
            number::lemma_encode_concat(current, ended(line));
            number::lemma_utf8_len_push(line, '\n');
            lemma_newline_width();
            assert(longer.last() == '\n');
            lemma_messages_fit(rest, longer);
            assert(message_texts(lines, current) == message_texts(rest, longer));
        }
    } else {
        let all = message_texts(lines, current);
        assert(all == one_or_none(current));
        assert forall|i: int| 0 <= i < all.len() implies number::utf8_len(
            text::trimmed_end(#[trigger] all[i], Trim::WhiteSpace),
        ) <= MAX_MESSAGE_SIZE by {
            assert(all[i] == current);
        }
    }
}

/// A line end is one byte.
proof fn lemma_newline_width()
    ensures
        number::utf8_len(seq!['\n']) == 1,
{
    assert(seq!['\n'].drop_first() =~= Seq::<char>::empty());
    assert(vstd::utf8::encode_utf8(Seq::<char>::empty()).len() == 0);
    assert(seq!['\n'][0] == '\n');
}

/// No part of a reply in text is longer than a message may be: its plain text has at most
/// [`MAX_MESSAGE_SIZE`] bytes.
pub proof fn law_every_message_fits(s: Seq<char>, lang: Option<Seq<char>>, i: int)
    requires
        0 <= i < all_formatted(split_messages(s), lang).len(),
    ensures
        number::utf8_len(all_formatted(split_messages(s), lang)[i].0) <= MAX_MESSAGE_SIZE,
{
    lemma_messages_fit(text::lines_of(s), Seq::empty());
    assert(number::utf8_len(text::trimmed_end(split_messages(s)[i], Trim::WhiteSpace))
        <= MAX_MESSAGE_SIZE);
}

/// The texts of a list, one after the other, without line ends.
pub open spec fn letters(parts: Seq<Seq<char>>) -> Seq<char>
    decreases parts.len(),
{
    if parts.len() == 0 {
        Seq::empty()
    } else {
        without_line_ends(parts[0]) + letters(parts.drop_first())
    }
}

/// A text without its line ends.
pub open spec fn without_line_ends(s: Seq<char>) -> Seq<char>
    decreases s.len(),
{
    if s.len() == 0 {
        Seq::empty()
    } else if s.last() == '\n' {
        without_line_ends(s.drop_last())
    } else {
        without_line_ends(s.drop_last()).push(s.last())
    }
}

proof fn lemma_without_line_ends(a: Seq<char>, b: Seq<char>)
    ensures
        without_line_ends(a + b) == without_line_ends(a) + without_line_ends(b),
    decreases b.len(),
{
    if b.len() == 0 {
        assert(a + b =~= a);
        assert(without_line_ends(a) + Seq::<char>::empty() =~= without_line_ends(a));
    } else {
        lemma_without_line_ends(a, b.drop_last());
        assert((a + b).drop_last() =~= a + b.drop_last());
        assert((a + b).last() == b.last());
        assert(without_line_ends(a + b) =~= without_line_ends(a) + without_line_ends(b));
    }
}

proof fn lemma_letters(a: Seq<Seq<char>>, b: Seq<Seq<char>>)
    ensures
        letters(a + b) == letters(a) + letters(b),
    decreases a.len(),
{
    if a.len() == 0 {
        assert(a + b =~= b);
        assert(letters(a) + letters(b) =~= letters(b));
    } else {
        lemma_letters(a.drop_first(), b);
        assert((a + b).drop_first() =~= a.drop_first() + b);
        assert((a + b)[0] == a[0]);
        assert(letters(a + b) =~= letters(a) + letters(b));
    }
}

proof fn lemma_letters_of_one(s: Seq<char>)
    ensures
        letters(seq![s]) == without_line_ends(s),
        letters(one_or_none(s)) == without_line_ends(s),
{
    assert(seq![s].drop_first() =~= Seq::<Seq<char>>::empty());
    assert(letters(Seq::<Seq<char>>::empty()) =~= Seq::<char>::empty());
    assert(letters(seq![s]) =~= without_line_ends(s));
    if s.len() == 0 {
        assert(without_line_ends(s) =~= Seq::<char>::empty());
    }
}

/// The pieces of a line and what is left make up the line.
proof fn lemma_cut_line_letters(line: Seq<char>)
    ensures
        letters(cut_line(line).0) + without_line_ends(cut_line(line).1) == without_line_ends(line),
    decreases line.len(),
{
    lemma_fitting(line, MAX_MESSAGE_SIZE as int);
    if number::utf8_len(line) <= MAX_MESSAGE_SIZE || fitting(line, MAX_MESSAGE_SIZE as int) < 1 {
        assert(letters(cut_line(line).0) =~= Seq::<char>::empty());
        assert(Seq::<char>::empty() + without_line_ends(line) =~= without_line_ends(line));
    } else {
        let n = fitting(line, MAX_MESSAGE_SIZE as int);
        let rest = cut_line(line.skip(n));
        lemma_cut_line_letters(line.skip(n));
        lemma_letters(seq![line.take(n)], rest.0);
        lemma_letters_of_one(line.take(n));
        lemma_without_line_ends(line.take(n), line.skip(n));
        assert(line =~= line.take(n) + line.skip(n));
        assert(letters(cut_line(line).0) + without_line_ends(rest.1) =~= without_line_ends(line));
    }
}

proof fn lemma_message_letters(lines: Seq<Seq<char>>, current: Seq<char>)
    ensures
        letters(message_texts(lines, current)) == without_line_ends(current) + letters(lines),
    decreases lines.len(),
{
    lemma_letters_of_one(current);
    if lines.len() == 0 {
        assert(without_line_ends(current) + Seq::<char>::empty() =~= without_line_ends(current));
    } else {
        let line = lines[0];
        let rest = lines.drop_first();
        if number::utf8_len(current) + number::utf8_len(line) > MAX_MESSAGE_SIZE {
            let cut = cut_line(line);
            let begun = if cut.1.len() > 0 || cut.0.len() == 0 {
                ended(cut.1)
            } else {
                Seq::empty()
            };
            lemma_cut_line_letters(line);
            lemma_message_letters(rest, begun);
            lemma_ended_letters(cut.1);
            assert(without_line_ends(begun) == without_line_ends(cut.1));
            lemma_letters(one_or_none(current) + cut.0, message_texts(rest, begun));
            lemma_letters(one_or_none(current), cut.0);
            assert(letters(message_texts(lines, current)) =~= without_line_ends(current) + (letters(
                cut.0,
            ) + without_line_ends(cut.1)) + letters(rest));
            assert(letters(message_texts(lines, current)) =~= without_line_ends(current) + letters(
                lines,
            ));
        } else {
            lemma_message_letters(rest, current + ended(line));
            lemma_without_line_ends(current, ended(line));
            lemma_ended_letters(line);
            assert(letters(message_texts(lines, current)) =~= without_line_ends(current) + letters(
                lines,
            ));
        }
    }
}

proof fn lemma_ended_letters(line: Seq<char>)
    ensures
        without_line_ends(ended(line)) == without_line_ends(line),
{
    assert(ended(line).drop_last() =~= line);
}

/// Cutting a text into messages loses no character of its lines, adds none and keeps their order.
pub proof fn law_messages_keep_the_text(s: Seq<char>)
    ensures
        letters(split_messages(s)) == letters(text::lines_of(s)),
{
    lemma_message_letters(text::lines_of(s), Seq::empty());
    assert(without_line_ends(Seq::<char>::empty()) =~= Seq::<char>::empty());
    assert(Seq::<char>::empty() + letters(text::lines_of(s)) =~= letters(text::lines_of(s)));
}

/// What a command answers.
pub enum CommandResponse {
    Text(String),
    Yaml(String),
    Table { headers: Vec<String>, rows: Vec<Vec<String>>, footer: Option<String> },
    Terminal(String),
}

/// What an answer says.
pub enum ResponseView {
    Text(Seq<char>),
    Yaml(Seq<char>),
    Table { headers: Seq<Seq<char>>, rows: Seq<Seq<Seq<char>>>, footer: Option<Seq<char>> },
    Terminal(Seq<char>),
}

/// The texts of the rows of a table.
pub open spec fn row_texts(rows: Seq<Vec<String>>) -> Seq<Seq<Seq<char>>> {
    Seq::new(rows.len(), |i: int| text::texts(rows[i]@))
}

impl View for CommandResponse {
    type V = ResponseView;

    open spec fn view(&self) -> ResponseView {
        match self {
            CommandResponse::Text(s) => ResponseView::Text(s@),
            CommandResponse::Yaml(s) => ResponseView::Yaml(s@),
            CommandResponse::Table { headers, rows, footer } => ResponseView::Table {
                headers: text::texts(headers@),
                rows: row_texts(rows@),
                footer: web::opt_text(*footer),
            },
            CommandResponse::Terminal(s) => ResponseView::Terminal(s@),
        }
    }
}

/// `n` times the same character.
pub open spec fn repeated(c: char, n: nat) -> Seq<char> {
    Seq::new(n, |i: int| c)
}

/// A text with spaces after it, up to `width` characters.
pub open spec fn padded(s: Seq<char>, width: nat) -> Seq<char> {
    if s.len() < width {
        s + repeated(' ', (width - s.len()) as nat)
    } else {
        s
    }
}

/// The larger of two numbers.
pub open spec fn larger(a: nat, b: nat) -> nat {
    if a < b {
        b
    } else {
        a
    }
}

/// The length in bytes of the longest cell in column `i` of the rows, or `least`.
pub open spec fn longest_cell(rows: Seq<Seq<Seq<char>>>, i: int, least: nat) -> nat
    decreases rows.len(),
{
    if rows.len() == 0 {
        least
    } else {
        let before = longest_cell(rows.drop_last(), i, least);
        if i < rows.last().len() {
            larger(before, number::utf8_len(rows.last()[i]))
        } else {
            before
        }
    }
}

/// The width of each column: the length in bytes of its longest text.
pub open spec fn column_widths(headers: Seq<Seq<char>>, rows: Seq<Seq<Seq<char>>>) -> Seq<nat> {
    Seq::new(
        headers.len(),
        |i: int| longest_cell(rows, i, number::utf8_len(headers[i])),
    )
}

/// Cells, padded to their columns, with bars between columns. Cells beyond the last column are left
/// out.
pub open spec fn table_line(cells: Seq<Seq<char>>, widths: Seq<nat>, from: int) -> Seq<char>
    decreases cells.len() - from,
{
    if from >= cells.len() || from >= widths.len() || from < 0 {
        Seq::empty()
    } else {
        padded(cells[from], widths[from]) + (if from < widths.len() - 1 {
            " | "@
        } else {
            Seq::empty()
        }) + table_line(cells, widths, from + 1)
    }
}

/// The line under the headers.
pub open spec fn rule_line(widths: Seq<nat>, from: int) -> Seq<char>
    decreases widths.len() - from,
{
    if from >= widths.len() || from < 0 {
        Seq::empty()
    } else {
        repeated('-', widths[from]) + (if from < widths.len() - 1 {
            "-|-"@
        } else {
            Seq::empty()
        }) + rule_line(widths, from + 1)
    }
}

/// The lines of the rows from row `from` on.
pub open spec fn body_lines(rows: Seq<Seq<Seq<char>>>, widths: Seq<nat>, from: int) -> Seq<char>
    decreases rows.len() - from,
{
    if from >= rows.len() || from < 0 {
        Seq::empty()
    } else {
        ended(table_line(rows[from], widths, 0)) + body_lines(rows, widths, from + 1)
    }
}

/// A table as text.
pub open spec fn table_text(
    headers: Seq<Seq<char>>,
    rows: Seq<Seq<Seq<char>>>,
    footer: Option<Seq<char>>,
) -> Seq<char> {
    let widths = column_widths(headers, rows);
    ended(table_line(headers, widths, 0)) + ended(rule_line(widths, 0)) + body_lines(rows, widths, 0)
        + match footer {
        Some(f) => "\n"@ + f,
        None => Seq::empty(),
    }
}

/// The messages of a table.
pub open spec fn table_messages(
    headers: Seq<Seq<char>>,
    rows: Seq<Seq<Seq<char>>>,
    footer: Option<Seq<char>>,
) -> Seq<(Seq<char>, Seq<char>)> {
    if headers.len() == 0 && rows.len() == 0 {
        seq![formatted("Empty table"@, None)]
    } else {
        all_formatted(split_messages(table_text(headers, rows, footer)), None)
    }
}

/// The messages of an answer, each as plain text and as HTML.
pub open spec fn response_messages(response: ResponseView) -> Seq<(Seq<char>, Seq<char>)> {
    match response {
        ResponseView::Text(s) => all_formatted(split_messages(s), None),
        ResponseView::Yaml(s) => all_formatted(split_messages(s), Some("yaml"@)),
        ResponseView::Terminal(s) => all_formatted(split_messages(s), Some("bash"@)),
        ResponseView::Table { headers, rows, footer } => table_messages(headers, rows, footer),
    }
}

/// Adds `n` times the same character.
fn push_repeated(s: &mut String, c: char, n: usize)
    ensures
        final(s)@ == old(s)@ + repeated(c, n as nat),
{
    let ghost before = s@;
    let mut i: usize = 0;
    assert(before + repeated(c, 0) =~= before);
    while i < n
        invariant
            i <= n,
            s@ == before + repeated(c, i as nat),
        decreases n - i,
    {
        s.push(c);
        i += 1;
        assert(s@ =~= before + repeated(c, i as nat));
    }
}

/// Adds a text and spaces after it, up to `width` characters.
fn push_padded(s: &mut String, cell: &str, width: usize)
    ensures
        final(s)@ == old(s)@ + padded(cell@, width as nat),
{
    let length: usize = text::chars_of(cell).len();
    let ghost before = s@;
    s.append(cell);
    if length < width {
        push_repeated(s, ' ', width - length);
        assert(s@ =~= before + padded(cell@, width as nat));
    }
}

/// The numbers of a list of sizes.
pub open spec fn sizes(widths: Seq<usize>) -> Seq<nat> {
    Seq::new(widths.len(), |i: int| widths[i] as nat)
}

/// Adds a line of cells.
fn push_table_line(s: &mut String, cells: &Vec<String>, widths: &Vec<usize>)
    ensures
        final(s)@ == old(s)@ + ended(table_line(text::texts(cells@), sizes(widths@), 0)),
{
    let count: usize = cells.len();
    let columns: usize = widths.len();
    let ghost views = text::texts(cells@);
    let ghost before = s@;
    let ghost goal = table_line(views, sizes(widths@), 0);
    let mut i: usize = 0;
    while i < count && i < columns
        invariant
            count == cells@.len(),
            columns == widths@.len(),
            views == text::texts(cells@),
            i <= count,
            i <= columns,
            s@ + table_line(views, sizes(widths@), i as int) == before + goal,
        decreases count - i,
    {
        let ghost start = s@;
        push_padded(s, cells[i].as_str(), widths[i]);
        if i < columns - 1 {
            s.append(" | ");
        }
        proof {
            let rest = table_line(views, sizes(widths@), i + 1);
            let bar: Seq<char> = if i < columns - 1 {
                " | "@
            } else {
                Seq::empty()
            };
            let cell = padded(views[i as int], sizes(widths@)[i as int]);
            assert(s@ =~= start + cell + bar);
            assert((start + cell + bar) + rest =~= start + (cell + bar + rest));
        }
        i += 1;
    }
    assert(s@ =~= before + goal);
    s.push('\n');
    assert(s@ =~= before + ended(goal));
}

/// Adds the line under the headers.
fn push_rule_line(s: &mut String, widths: &Vec<usize>)
    ensures
        final(s)@ == old(s)@ + ended(rule_line(sizes(widths@), 0)),
{
    let columns: usize = widths.len();
    let ghost before = s@;
    let ghost goal = rule_line(sizes(widths@), 0);
    let mut i: usize = 0;
    while i < columns
        invariant
            columns == widths@.len(),
            i <= columns,
            s@ + rule_line(sizes(widths@), i as int) == before + goal,
        decreases columns - i,
    {
        let ghost start = s@;
        push_repeated(s, '-', widths[i]);
        if i < columns - 1 {
            s.append("-|-");
        }
        proof {
            let rest = rule_line(sizes(widths@), i + 1);
            let bar: Seq<char> = if i < columns - 1 {
                "-|-"@
            } else {
                Seq::empty()
            };
            let line = repeated('-', sizes(widths@)[i as int]);
            assert(s@ =~= start + line + bar);
            assert((start + line + bar) + rest =~= start + (line + bar + rest));
        }
        i += 1;
    }
    assert(s@ =~= before + goal);
    s.push('\n');
    assert(s@ =~= before + ended(goal));
}

/// Measures the columns of a table.
fn measure_columns(headers: &Vec<String>, rows: &Vec<Vec<String>>) -> (widths: Vec<usize>)
    ensures
        sizes(widths@) == column_widths(text::texts(headers@), row_texts(rows@)),
{
    let columns: usize = headers.len();
    let count: usize = rows.len();
    let ghost heads = text::texts(headers@);
    let ghost cells = row_texts(rows@);
    let mut widths: Vec<usize> = Vec::new();
    let mut i: usize = 0;
    while i < columns
        invariant
            columns == headers@.len(),
            count == rows@.len(),
            heads == text::texts(headers@),
            cells == row_texts(rows@),
            i <= columns,
            widths@.len() == i,
            forall|j: int|
                0 <= j < i ==> #[trigger] widths@[j] as nat == longest_cell(
                    cells,
                    j,
                    number::utf8_len(heads[j]),
                ),
        decreases columns - i,
    {
        let mut width: usize = number::byte_len(headers[i].as_str());
        let ghost least = width as nat;
        let mut r: usize = 0;
        assert(cells.take(0) =~= Seq::<Seq<Seq<char>>>::empty());
        while r < count
            invariant
                count == rows@.len(),
                cells == row_texts(rows@),
                r <= count,
                width as nat == longest_cell(cells.take(r as int), i as int, least),
            decreases count - r,
        {
            proof {
                assert(cells.take(r + 1).drop_last() =~= cells.take(r as int));
                assert(cells.take(r + 1).last() == text::texts(rows@[r as int]@));
            }
            if i < rows[r].len() {
                let size: usize = number::byte_len(rows[r][i].as_str());
                if size > width {
                    width = size;
                }
            }
            r += 1;
        }
        assert(cells.take(count as int) =~= cells);
        widths.push(width);
        i += 1;
    }
    assert(sizes(widths@) =~= column_widths(heads, cells));
    widths
}

/// Writes a table as text.
fn write_table(headers: &Vec<String>, rows: &Vec<Vec<String>>, footer: &Option<String>) -> (s:
    String)
    ensures
        s@ == table_text(text::texts(headers@), row_texts(rows@), web::opt_text(*footer)),
{
    let widths = measure_columns(headers, rows);
    let count: usize = rows.len();
    let ghost cells = row_texts(rows@);
    let mut s = String::new();
    push_table_line(&mut s, headers, &widths);
    push_rule_line(&mut s, &widths);
    let ghost head = s@;
    let mut i: usize = 0;
    while i < count
        invariant
            count == rows@.len(),
            cells == row_texts(rows@),
            i <= count,
            s@ + body_lines(cells, sizes(widths@), i as int) == head + body_lines(
                cells,
                sizes(widths@),
                0,
            ),
        decreases count - i,
    {
        let ghost start = s@;
        push_table_line(&mut s, &rows[i], &widths);
        proof {
            let rest = body_lines(cells, sizes(widths@), i + 1);
            let line = ended(table_line(cells[i as int], sizes(widths@), 0));
            assert(cells[i as int] == text::texts(rows@[i as int]@));
            assert((start + line) + rest =~= start + (line + rest));
        }
        i += 1;
    }
    assert(s@ =~= head + body_lines(cells, sizes(widths@), 0));
    let ghost table = s@;
    match footer {
        Some(f) => {
            s.append("\n");
            s.append(f.as_str());
            assert(s@ =~= table + ("\n"@ + f@));
        },
        None => {
            assert(s@ =~= table + Seq::<char>::empty());
        },
    }
    proof {
        let one = ended(table_line(text::texts(headers@), sizes(widths@), 0));
        let two = ended(rule_line(sizes(widths@), 0));
        assert(head =~= one + two);
    }
    s
}

impl CommandResponse {
    /// The messages of an answer, each as plain text and as HTML.
    pub fn render_chunks(self) -> (chunks: Vec<(String, String)>)
        ensures
            message_views(chunks@) == response_messages(self@),
    {
        match self {
            CommandResponse::Text(s) => Self::chunk_text(s.as_str(), None),
            CommandResponse::Yaml(s) => Self::chunk_text(s.as_str(), Some("yaml")),
            CommandResponse::Terminal(s) => Self::chunk_text(s.as_str(), Some("bash")),
            CommandResponse::Table { headers, rows, footer } => Self::chunk_table(
                &headers,
                &rows,
                &footer,
            ),
        }
    }

    /// Cuts a text into messages and gives each as plain text and as HTML.
    pub fn chunk_text(s: &str, lang: Option<&str>) -> (chunks: Vec<(String, String)>)
        ensures
            message_views(chunks@) == all_formatted(split_messages(s@), opt_str(lang)),
    {
        let texts = split_text_messages(s);
        let count: usize = texts.len();
        let mut chunks: Vec<(String, String)> = Vec::new();
        let mut i: usize = 0;
        while i < count
            invariant
                count == texts@.len(),
                i <= count,
                chunks@.len() == i,
                forall|j: int|
                    0 <= j < i ==> ((#[trigger] chunks@[j]).0@, chunks@[j].1@) == formatted(
                        texts@[j]@,
                        opt_str(lang),
                    ),
            decreases count - i,
        {
            chunks.push(format_text_chunk(texts[i].as_str(), lang));
            i += 1;
        }
        proof {
            let messages = split_messages(s@);
            assert(text::texts(texts@).len() == messages.len());
            assert forall|j: int| 0 <= j < count implies messages[j] == (#[trigger] texts@[j])@ by {
                assert(text::texts(texts@)[j] == texts@[j]@);
            }
            assert(message_views(chunks@) =~= all_formatted(messages, opt_str(lang)));
        }
        chunks
    }

    /// The messages of a table.
    pub fn chunk_table(
        headers: &Vec<String>,
        rows: &Vec<Vec<String>>,
        footer: &Option<String>,
    ) -> (chunks: Vec<(String, String)>)
        ensures
            message_views(chunks@) == table_messages(
                text::texts(headers@),
                row_texts(rows@),
                web::opt_text(*footer),
            ),
    {
        if headers.len() == 0 && rows.len() == 0 {
            let mut chunks: Vec<(String, String)> = Vec::new();
            chunks.push(format_text_chunk("Empty table", None));
            assert(message_views(chunks@) =~= seq![formatted("Empty table"@, None)]);
            return chunks;
        }
        let table = write_table(headers, rows, footer);
        Self::chunk_text(table.as_str(), None)
    }
}

/// As many characters as fit are taken, and no more: what is taken fits, and every beginning of the
/// text that fits is no longer.
pub proof fn law_as_much_as_fits(s: Seq<char>, limit: int, n: int)
    requires
        limit >= 0,
        0 <= n <= s.len(),
        number::utf8_len(s.take(n)) <= limit,
    ensures
        n <= fitting(s, limit) <= s.len(),
        number::utf8_len(s.take(fitting(s, limit))) <= limit,
    decreases s.len(),
{
    lemma_fitting(s, limit);
    if n > 0 {
        let first = seq![s[0]];
        let rest = s.drop_first();
        assert(s.take(n) =~= first + rest.take(n - 1));
        number::lemma_encode_concat(first, rest.take(n - 1));
        law_as_much_as_fits(rest, limit - number::utf8_len(first), n - 1);
    }
}

/// A line that is too long is cut into parts that give it back. Every part fits into a message, and
/// none could take one character more.
pub proof fn law_cut_lines(line: Seq<char>)
    ensures
        ({
            let all = cut_line(line).0.push(cut_line(line).1);
            &&& text::joined(all, Seq::empty()) == line
            &&& forall|i: int|
                0 <= i < all.len() ==> number::utf8_len(#[trigger] all[i]) <= MAX_MESSAGE_SIZE
            &&& forall|i: int|
                0 <= i < all.len() - 1 ==> all[i + 1].len() > 0 && number::utf8_len(
                    (#[trigger] all[i]).push(all[i + 1][0]),
                ) > MAX_MESSAGE_SIZE
        }),
    decreases line.len(),
{
    let limit = MAX_MESSAGE_SIZE as int;
    let all = cut_line(line).0.push(cut_line(line).1);
    lemma_fitting(line, limit);
    if number::utf8_len(line) <= MAX_MESSAGE_SIZE || fitting(line, limit) < 1 {
        if number::utf8_len(line) > MAX_MESSAGE_SIZE {
            assert(line.len() > 0) by {
                if line.len() == 0 {
                    assert(line =~= Seq::<char>::empty());
                    assert(encode_utf8(Seq::<char>::empty()).len() == 0);
                }
            }
            number::lemma_utf8_len_push(Seq::empty(), line[0]);
        }
        assert(all =~= seq![line]);
    } else {
        let n = fitting(line, limit);
        let rest = cut_line(line.skip(n));
        let others = rest.0.push(rest.1);
        law_cut_lines(line.skip(n));
        assert(all =~= seq![line.take(n)] + others);
        assert(all.drop_first() =~= others);
        text::lemma_joined_front(all, Seq::empty());
        assert(line =~= line.take(n) + Seq::empty() + line.skip(n));
        assert(n < line.len()) by {
            if n == line.len() {
                assert(line.take(n) =~= line);
            }
        }
        assert(others[0].len() > 0 && others[0][0] == line[n]) by {
            let tail = line.skip(n);
            let m = fitting(tail, limit);
            lemma_fitting(tail, limit);
            if number::utf8_len(tail) <= MAX_MESSAGE_SIZE || m < 1 {
                assert(others[0] == tail);
            } else {
                assert(rest.0 == seq![tail.take(m)] + cut_line(tail.skip(m)).0);
                assert(others[0] == tail.take(m));
            }
        }
        if number::utf8_len(line.take(n + 1)) <= limit {
            law_as_much_as_fits(line, limit, n + 1);
        }
        assert(line.take(n).push(line[n]) =~= line.take(n + 1));
        assert forall|i: int| 0 <= i < all.len() implies number::utf8_len(#[trigger] all[i])
            <= MAX_MESSAGE_SIZE by {
            if i > 0 {
                assert(all[i] == others[i - 1]);
            }
        }
        assert forall|i: int| 0 <= i < all.len() - 1 implies all[i + 1].len() > 0
            && number::utf8_len((#[trigger] all[i]).push(all[i + 1][0])) > MAX_MESSAGE_SIZE by {
            if i > 0 {
                assert(all[i] == others[i - 1]);
                assert(all[i + 1] == others[i]);
            } else {
                assert(all[1] == others[0]);
            }
        }
    }
}

/// A text that fits into one message is one, with a line end behind it.
pub proof fn law_short_texts_stay_whole(s: Seq<char>)
    requires
        !s.contains('\r'),
        s.len() > 0,
        number::utf8_len(s) <= MAX_MESSAGE_SIZE,
    ensures
        split_messages(s) == seq![
            if s.last() == '\n' {
                s
            } else {
                s.push('\n')
            },
        ],
{
    assert(encode_utf8(Seq::<char>::empty()).len() == 0);
    lemma_short_text(s, Seq::empty());
    assert(Seq::<char>::empty() + s =~= s);
    assert(Seq::<char>::empty() + s.push('\n') =~= s.push('\n'));
}

proof fn lemma_short_text(s: Seq<char>, current: Seq<char>)
    requires
        !s.contains('\r'),
        number::utf8_len(current) + number::utf8_len(s) <= MAX_MESSAGE_SIZE,
    ensures
        message_texts(text::lines_of(s), current) == one_or_none(
            if s.len() == 0 {
                current
            } else if s.last() == '\n' {
                current + s
            } else {
                current + s.push('\n')
            },
        ),
    decreases s.len(),
{
    if s.contains('\n') {
        s.index_of_first_ensures('\n');
        let at = s.index_of_first('\n')->0;
        let first = s.take(at);
        let rest = s.skip(at + 1);
        assert(!first.contains('\n')) by {
            if first.contains('\n') {
                let k = first.index_of('\n');
                assert(s[k] == '\n');
            }
        }
        assert(!first.contains('\r')) by {
            if first.contains('\r') {
                let k = first.index_of('\r');
                assert(s[k] == '\r');
            }
        }
        assert(!rest.contains('\r')) by {
            if rest.contains('\r') {
                let k = rest.index_of('\r');
                assert(s[at + 1 + k] == '\r');
            }
        }
        assert(s =~= first + seq!['\n'] + rest);
        text::law_lines(first, rest);
        number::lemma_encode_concat(first, seq!['\n']);
        number::lemma_encode_concat(first + seq!['\n'], rest);
        assert(ended(first) =~= first + seq!['\n']);
        number::lemma_encode_concat(current, ended(first));
        lemma_short_text(rest, current + ended(first));
        let lines = text::lines_of(s);
        assert(lines.drop_first() =~= text::lines_of(rest));
        assert(lines[0] == first);
        if rest.len() == 0 {
            assert(s =~= ended(first));
        } else {
            assert(s.last() == rest.last());
            assert(current + ended(first) + rest =~= current + s);
            assert(current + ended(first) + rest.push('\n') =~= current + s.push('\n'));
        }
    } else {
        text::law_lines(s, Seq::empty());
        let lines = text::lines_of(s);
        if s.len() > 0 {
            assert(s.last() != '\n') by {
                if s.last() == '\n' {
                    assert(s.contains('\n'));
                }
            }
            assert(lines[0] == s);
            assert(lines.drop_first() =~= Seq::<Seq<char>>::empty());
            assert(message_texts(Seq::empty(), current + ended(s)) == one_or_none(
                current + ended(s),
            ));
        }
    }
}

/// A message ends where the next line would not fit: that line, whole where it fits into a message
/// by itself and cut where it does not, begins a new one, and all that follows is split as if
/// nothing had come before.
pub proof fn law_full_messages_end(line: Seq<char>, rest: Seq<Seq<char>>, current: Seq<char>)
    requires
        number::utf8_len(current) + number::utf8_len(line) > MAX_MESSAGE_SIZE,
    ensures
        message_texts(seq![line] + rest, current) == one_or_none(current) + cut_line(line).0
            + message_texts(seq![cut_line(line).1] + rest, Seq::empty()),
        number::utf8_len(line) <= MAX_MESSAGE_SIZE ==> cut_line(line) == (
            Seq::<Seq<char>>::empty(),
            line,
        ),
{
    let lines = seq![line] + rest;
    let cut = cut_line(line);
    let later = seq![cut.1] + rest;
    assert(lines.drop_first() =~= rest);
    assert(later.drop_first() =~= rest);
    law_cut_lines(line);
    let all = cut.0.push(cut.1);
    assert(all[all.len() - 1] == cut.1);
    assert(encode_utf8(Seq::<char>::empty()).len() == 0);
    if cut.0.len() > 0 {
        assert(all[all.len() - 2] == cut.0.last());
        assert(cut.1.len() > 0);
    }
    assert(Seq::<char>::empty() + ended(cut.1) =~= ended(cut.1));
    assert(message_texts(later, Seq::empty()) == message_texts(rest, ended(cut.1)));
}

/// A column is as wide as its widest cell, its header among them: no cell is wider, and one is as
/// wide.
pub proof fn law_columns_hold_their_cells(
    headers: Seq<Seq<char>>,
    rows: Seq<Seq<Seq<char>>>,
    i: int,
)
    requires
        0 <= i < headers.len(),
    ensures
        ({
            let width = column_widths(headers, rows)[i];
            &&& number::utf8_len(headers[i]) <= width
            &&& forall|r: int|
                0 <= r < rows.len() && i < rows[r].len() ==> number::utf8_len(
                    #[trigger] rows[r][i],
                ) <= width
            &&& width == number::utf8_len(headers[i]) || exists|r: int|
                0 <= r < rows.len() && i < rows[r].len() && width == number::utf8_len(
                    #[trigger] rows[r][i],
                )
        }),
    decreases rows.len(),
{
    if rows.len() > 0 {
        let fewer = rows.drop_last();
        law_columns_hold_their_cells(headers, fewer, i);
        let before = column_widths(headers, fewer)[i];
        let width = column_widths(headers, rows)[i];
        let last = rows.len() - 1;
        assert forall|r: int| 0 <= r < rows.len() && i < rows[r].len() implies number::utf8_len(
            #[trigger] rows[r][i],
        ) <= width by {
            if r < last {
                assert(fewer[r][i] == rows[r][i]);
            }
        }
        if width == before && width != number::utf8_len(headers[i]) {
            let r = choose|r: int|
                0 <= r < fewer.len() && i < fewer[r].len() && before == number::utf8_len(
                    #[trigger] fewer[r][i],
                );
            assert(rows[r][i] == fewer[r][i]);
        } else if width != number::utf8_len(headers[i]) {
            assert(width == number::utf8_len(rows[last][i]));
        }
    }
}

/// A cell in its column is followed by spaces up to the column's width.
pub proof fn law_cells_are_padded(cell: Seq<char>, width: nat)
    ensures
        cell.is_prefix_of(padded(cell, width)),
        padded(cell, width).len() == if cell.len() < width {
            width
        } else {
            cell.len()
        },
        forall|i: int| cell.len() <= i < padded(cell, width).len() ==> padded(cell, width)[i] == ' ',
{
    assert(padded(cell, width).subrange(0, cell.len() as int) =~= cell);
}

/// A line of a table is its padded cells with bars between them, also behind the last one where cells
/// are missing, and cells beyond the last column are left out; the line below the headers has as many
/// dashes as the columns are wide.
pub proof fn law_table_lines(cells: Seq<Seq<char>>, widths: Seq<nat>)
    ensures
        cells.len() >= widths.len() ==> table_line(cells, widths, 0) == text::joined(
            Seq::new(widths.len(), |i: int| padded(cells[i], widths[i])),
            " | "@,
        ),
        0 < cells.len() < widths.len() ==> table_line(cells, widths, 0) == text::joined(
            Seq::new(cells.len(), |i: int| padded(cells[i], widths[i])),
            " | "@,
        ) + " | "@,
        rule_line(widths, 0) == text::joined(
            Seq::new(widths.len(), |i: int| repeated('-', widths[i])),
            "-|-"@,
        ),
{
    let dashes = Seq::new(widths.len(), |i: int| repeated('-', widths[i]));
    lemma_rule_line(widths, dashes, 0);
    assert(dashes.skip(0) =~= dashes);
    let all = Seq::new(widths.len(), |i: int| padded(cells[i], widths[i]));
    let some = Seq::new(cells.len(), |i: int| padded(cells[i], widths[i]));
    if cells.len() >= widths.len() {
        lemma_table_line(cells, widths, all, 0);
        assert(all.skip(0) =~= all);
        assert(text::joined(all, " | "@) + Seq::<char>::empty() =~= text::joined(all, " | "@));
    } else {
        lemma_table_line(cells, widths, some, 0);
        assert(some.skip(0) =~= some);
    }
}

proof fn lemma_table_line(
    cells: Seq<Seq<char>>,
    widths: Seq<nat>,
    shown: Seq<Seq<char>>,
    from: int,
)
    requires
        shown.len() == cells.len() || shown.len() == widths.len(),
        shown.len() <= cells.len() && shown.len() <= widths.len(),
        forall|i: int| 0 <= i < shown.len() ==> #[trigger] shown[i] == padded(cells[i], widths[i]),
        0 <= from <= shown.len(),
    ensures
        table_line(cells, widths, from) == text::joined(shown.skip(from), " | "@) + if from
            < shown.len() < widths.len() {
            " | "@
        } else {
            Seq::empty()
        },
    decreases shown.len() - from,
{
    let rest = shown.skip(from);
    let bar = " | "@;
    let end = if shown.len() < widths.len() {
        bar
    } else {
        Seq::empty()
    };
    if from < shown.len() {
        lemma_table_line(cells, widths, shown, from + 1);
        assert(rest.drop_first() =~= shown.skip(from + 1));
        assert(rest[0] == shown[from]);
        if rest.len() >= 2 {
            text::lemma_joined_front(rest, bar);
            let tail = text::joined(shown.skip(from + 1), bar);
            assert(rest[0] + bar + (tail + end) =~= (rest[0] + bar + tail) + end);
        } else {
            assert(table_line(cells, widths, from + 1) =~= Seq::empty());
            assert(table_line(cells, widths, from) =~= rest[0] + end);
        }
    } else {
        assert(rest =~= Seq::<Seq<char>>::empty());
        assert(table_line(cells, widths, from) =~= Seq::empty());
    }
}

proof fn lemma_rule_line(widths: Seq<nat>, dashes: Seq<Seq<char>>, from: int)
    requires
        dashes == Seq::new(widths.len(), |i: int| repeated('-', widths[i])),
        0 <= from <= widths.len(),
    ensures
        rule_line(widths, from) == text::joined(dashes.skip(from), "-|-"@),
    decreases widths.len() - from,
{
    let rest = dashes.skip(from);
    if from < widths.len() {
        lemma_rule_line(widths, dashes, from + 1);
        assert(rest.drop_first() =~= dashes.skip(from + 1));
        assert(rest[0] == dashes[from]);
        if rest.len() >= 2 {
            text::lemma_joined_front(rest, "-|-"@);
        } else {
            assert(rule_line(widths, from + 1) =~= Seq::empty());
            assert(rule_line(widths, from) =~= rest[0]);
        }
    }
}

/// Each row of a table has its line, in the order of the rows.
pub proof fn law_each_row_has_its_line(
    a: Seq<Seq<Seq<char>>>,
    b: Seq<Seq<Seq<char>>>,
    row: Seq<Seq<char>>,
    widths: Seq<nat>,
)
    ensures
        body_lines(a + b, widths, 0) == body_lines(a, widths, 0) + body_lines(b, widths, 0),
        body_lines(seq![row], widths, 0) == table_line(row, widths, 0) + seq!['\n'],
{
    lemma_lines_of_rows(a, b, widths, 0);
    assert(body_lines(seq![row], widths, 1) =~= Seq::empty());
    assert(body_lines(seq![row], widths, 0) =~= table_line(row, widths, 0) + seq!['\n']);
}

proof fn lemma_lines_of_rows(
    a: Seq<Seq<Seq<char>>>,
    b: Seq<Seq<Seq<char>>>,
    widths: Seq<nat>,
    from: int,
)
    requires
        0 <= from <= a.len(),
    ensures
        body_lines(a + b, widths, from) == body_lines(a, widths, from) + body_lines(b, widths, 0),
    decreases a.len() - from,
{
    if from < a.len() {
        lemma_lines_of_rows(a, b, widths, from + 1);
        let line = ended(table_line(a[from], widths, 0));
        assert(line + (body_lines(a, widths, from + 1) + body_lines(b, widths, 0)) =~= (line
            + body_lines(a, widths, from + 1)) + body_lines(b, widths, 0));
    } else {
        lemma_lines_behind(a, b, widths, 0);
        assert(body_lines(a, widths, from) =~= Seq::empty());
    }
}

proof fn lemma_lines_behind(
    a: Seq<Seq<Seq<char>>>,
    b: Seq<Seq<Seq<char>>>,
    widths: Seq<nat>,
    from: int,
)
    requires
        0 <= from <= b.len(),
    ensures
        body_lines(a + b, widths, a.len() + from) == body_lines(b, widths, from),
    decreases b.len() - from,
{
    if from < b.len() {
        lemma_lines_behind(a, b, widths, from + 1);
        assert((a + b)[a.len() + from] == b[from]);
    }
}

/// A message keeps its text but for white space at its end; in a block of code its HTML names the
/// language and holds the escaped text.
pub proof fn law_messages_are_formatted(s: Seq<char>, white: Seq<char>, lang: Seq<char>)
    requires
        s.len() > 0,
        !text::is_white_space(s.last()),
        forall|i: int| 0 <= i < white.len() ==> text::is_white_space(#[trigger] white[i]),
    ensures
        formatted(s + white, None).0 == s,
        formatted(s + white, Some(lang)).0 == s,
        formatted(s + white, Some(lang)).1 == "<pre><code class=\"language-"@ + lang + "\">"@
            + web::html_text(s) + "</code></pre>"@,
        formatted(s + white, None) == formatted(s, None),
{
    lemma_end_is_trimmed(s, white);
    lemma_end_is_trimmed(s, Seq::empty());
    assert(s + Seq::<char>::empty() =~= s);
}

proof fn lemma_end_is_trimmed(s: Seq<char>, white: Seq<char>)
    requires
        s.len() > 0,
        !text::is_white_space(s.last()),
        forall|i: int| 0 <= i < white.len() ==> text::is_white_space(#[trigger] white[i]),
    ensures
        text::trimmed_end(s + white, Trim::WhiteSpace) == s,
    decreases white.len(),
{
    let all = s + white;
    if white.len() == 0 {
        assert(all =~= s);
    } else {
        assert(all.last() == white[white.len() - 1]);
        assert(all.drop_last() =~= s + white.drop_last());
        assert forall|i: int| 0 <= i < white.drop_last().len() implies text::is_white_space(
            #[trigger] white.drop_last()[i],
        ) by {
            assert(white.drop_last()[i] == white[i]);
        }
        lemma_end_is_trimmed(s, white.drop_last());
    }
}

/// Every message of a response is formatted alike: text as it is, data and terminal output as code.
pub proof fn law_responses_are_formatted(s: Seq<char>, i: int)
    requires
        0 <= i < split_messages(s).len(),
    ensures
        response_messages(ResponseView::Text(s)).len() == split_messages(s).len(),
        response_messages(ResponseView::Text(s))[i] == formatted(split_messages(s)[i], None),
        response_messages(ResponseView::Yaml(s))[i] == formatted(
            split_messages(s)[i],
            Some("yaml"@),
        ),
        response_messages(ResponseView::Terminal(s))[i] == formatted(
            split_messages(s)[i],
            Some("bash"@),
        ),
{
}

/// A table of a user's command begins with its headers over a rule and goes on with its rows; a footer
/// comes last, on a line of its own.
pub proof fn law_user_tables_have_their_parts(
    headers: Seq<Seq<char>>,
    rows: Seq<Seq<Seq<char>>>,
    footer: Seq<char>,
)
    ensures
        ({
            let widths = column_widths(headers, rows);
            let bare = table_text(headers, rows, None);
            let full = table_text(headers, rows, Some(footer));
            &&& bare == table_line(headers, widths, 0).push('\n') + rule_line(widths, 0).push('\n')
                + body_lines(rows, widths, 0)
            &&& full == bare + seq!['\n'] + footer
            &&& widths.len() == headers.len()
        }),
{
    reveal_strlit("\n");
    assert("\n"@ =~= seq!['\n']);
    let bare = table_text(headers, rows, None);
    let widths = column_widths(headers, rows);
    assert(bare =~= ended(table_line(headers, widths, 0)) + ended(rule_line(widths, 0))
        + body_lines(rows, widths, 0));
    assert(table_text(headers, rows, Some(footer)) =~= bare + seq!['\n'] + footer);
}

} // verus!

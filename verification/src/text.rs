//! Text as sequences of characters: searching, splitting, trimming and replacing.

use vstd::prelude::*;
use vstd::string::*;

verus! {

/// `String::push` appends one character to the end of the string.
pub assume_specification[ String::push ](s: &mut String, c: char)
    ensures
        final(s)@ == old(s)@.push(c),
;

/// The texts of a sequence of strings.
pub open spec fn texts(strings: Seq<String>) -> Seq<Seq<char>> {
    Seq::new(strings.len(), |i: int| strings[i]@)
}

/// The characters of a string.
pub fn chars_of(s: &str) -> (chars: Vec<char>)
    ensures
        chars@ == s@,
{
    let mut chars: Vec<char> = Vec::new();
    for c in it: s.chars()
        invariant
            chars@ == s@.take(it.index() as int),
            it.seq() == s@,
    {
        chars.push(c);
        assert(s@.take(it.index() + 1) =~= s@.take(it.index() as int).push(c));
    }
    assert(s@.take(s@.len() as int) =~= s@);
    chars
}

/// The string of the characters from `from` up to, not including, `to`.
pub fn string_of(chars: &Vec<char>, from: usize, to: usize) -> (s: String)
    requires
        from <= to <= chars@.len(),
    ensures
        s@ == chars@.subrange(from as int, to as int),
{
    let mut s = String::new();
    let mut i: usize = from;
    while i < to
        invariant
            from <= i <= to <= chars@.len(),
            s@ == chars@.subrange(from as int, i as int),
        decreases to - i,
    {
        s.push(chars[i]);
        assert(chars@.subrange(from as int, i + 1) =~= chars@.subrange(from as int, i as int).push(chars@[i as int]));
        i += 1;
    }
    s
}

/// A second list of the same texts.
pub fn copy_texts(strings: &Vec<String>) -> (copy: Vec<String>)
    ensures
        texts(copy@) == texts(strings@),
{
    let mut copy: Vec<String> = Vec::new();
    let length: usize = strings.len();
    let mut i: usize = 0;
    while i < length
        invariant
            length == strings@.len(),
            i <= length,
            copy@.len() == i,
            forall|j: int| 0 <= j < i ==> (#[trigger] copy@[j])@ == strings@[j]@,
        decreases length - i,
    {
        copy.push(strings[i].clone());
        i += 1;
    }
    assert(texts(copy@) =~= texts(strings@));
    copy
}

/// A second string of the same text, where there is one.
pub fn copy_optional(s: &Option<String>) -> (copy: Option<String>)
    ensures
        copy == *s,
{
    match s {
        Some(value) => Some(value.clone()),
        None => None,
    }
}

/// Whether two strings hold the same text.
pub fn same(a: &str, b: &str) -> (res: bool)
    ensures
        res == (a@ == b@),
{
    let a_text = a.to_owned();
    let b_text = b.to_owned();
    a_text == b_text
}

/// Whether `s` holds `pattern` from position `at` on.
pub fn occurs_at(s: &Vec<char>, at: usize, pattern: &Vec<char>) -> (res: bool)
    requires
        at <= s@.len(),
    ensures
        res == pattern@.is_prefix_of(s@.skip(at as int)),
{
    let length: usize = s.len();
    if length - at < pattern.len() {
        return false;
    }
    let mut i: usize = 0;
    while i < pattern.len()
        invariant
            length == s@.len(),
            at <= s@.len(),
            pattern@.len() <= s@.len() - at,
            i <= pattern@.len(),
            forall|j: int| 0 <= j < i ==> s@[at + j] == pattern@[j],
        decreases pattern@.len() - i,
    {
        if s[at + i] != pattern[i] {
            assert(s@.skip(at as int)[i as int] == s@[at + i]);
            return false;
        }
        i += 1;
    }
    assert(pattern@ =~= s@.skip(at as int).subrange(0, pattern@.len() as int));
    true
}

/// Whether `s` begins with `prefix`.
pub fn starts_with(s: &str, prefix: &str) -> (res: bool)
    ensures
        res == prefix@.is_prefix_of(s@),
{
    let chars = chars_of(s);
    let pattern = chars_of(prefix);
    assert(s@.skip(0) =~= s@);
    occurs_at(&chars, 0, &pattern)
}

/// Whether `s` ends with `suffix`.
pub fn ends_with(s: &str, suffix: &str) -> (res: bool)
    ensures
        res == suffix@.is_suffix_of(s@),
{
    let chars = chars_of(s);
    let pattern = chars_of(suffix);
    if chars.len() < pattern.len() {
        return false;
    }
    let at: usize = chars.len() - pattern.len();
    let res = occurs_at(&chars, at, &pattern);
    proof {
        let rest = s@.skip(at as int);
        assert(rest.subrange(0, suffix@.len() as int) =~= rest);
        assert(rest =~= s@.subrange(at as int, s@.len() as int));
    }
    res
}

/// The text after `prefix`, where `s` begins with it.
pub fn strip_prefix(s: &str, prefix: &str) -> (res: Option<String>)
    ensures
        res is Some <==> prefix@.is_prefix_of(s@),
        res matches Some(rest) ==> rest@ == s@.skip(prefix@.len() as int),
{
    let chars = chars_of(s);
    let pattern = chars_of(prefix);
    assert(s@.skip(0) =~= s@);
    if occurs_at(&chars, 0, &pattern) {
        let rest = string_of(&chars, pattern.len(), chars.len());
        assert(rest@ =~= s@.skip(prefix@.len() as int));
        Some(rest)
    } else {
        None
    }
}

/// The first position at which `pattern` occurs in `s`.
pub open spec fn find(s: Seq<char>, pattern: Seq<char>) -> Option<int>
    decreases s.len(),
{
    if pattern.is_prefix_of(s) {
        Some(0)
    } else if s.len() == 0 {
        None
    } else {
        match find(s.drop_first(), pattern) {
            Some(i) => Some(i + 1),
            None => None,
        }
    }
}

/// The position that [`find`] gives is inside the text and holds the pattern.
pub proof fn lemma_find(s: Seq<char>, pattern: Seq<char>)
    ensures
        find(s, pattern) matches Some(i) ==> {
            &&& 0 <= i
            &&& i + pattern.len() <= s.len()
            &&& s.subrange(i, i + pattern.len()) == pattern
        },
    decreases s.len(),
{
    if pattern.is_prefix_of(s) {
    } else if s.len() > 0 {
        lemma_find(s.drop_first(), pattern);
        if let Some(i) = find(s.drop_first(), pattern) {
            assert(s.subrange(i + 1, i + 1 + pattern.len()) =~= s.drop_first().subrange(
                i,
                i + pattern.len(),
            ));
        }
    }
}

/// The first position from `from` on at which `pattern` occurs.
pub fn find_from(s: &Vec<char>, from: usize, pattern: &Vec<char>) -> (res: Option<usize>)
    requires
        from <= s@.len(),
    ensures
        res is Some <==> find(s@.skip(from as int), pattern@) is Some,
        res matches Some(i) ==> {
            &&& from <= i
            &&& i + pattern@.len() <= s@.len()
            &&& find(s@.skip(from as int), pattern@) == Some(i - from)
        },
{
    let mut i: usize = from;
    loop
        invariant
            from <= i <= s@.len(),
            find(s@.skip(from as int), pattern@) == match find(s@.skip(i as int), pattern@) {
                Some(k) => Some(k + i - from),
                None => None,
            },
        decreases s@.len() - i,
    {
        proof {
            lemma_find(s@.skip(i as int), pattern@);
            assert(s@.skip(i as int).len() == s@.len() - i);
        }
        if occurs_at(s, i, pattern) {
            return Some(i);
        }
        if i == s.len() {
            return None;
        }
        assert(s@.skip(i as int).drop_first() =~= s@.skip(i + 1));
        i += 1;
    }
}

/// Whether `pattern` occurs in `s`.
pub fn contains(s: &str, pattern: &str) -> (res: bool)
    ensures
        res == (find(s@, pattern@) is Some),
{
    let chars = chars_of(s);
    let wanted = chars_of(pattern);
    assert(s@.skip(0) =~= s@);
    find_from(&chars, 0, &wanted).is_some()
}

/// `s` with every occurrence of `from`, taken from the left without overlap, replaced by `to`.
pub open spec fn replaced(s: Seq<char>, from: Seq<char>, to: Seq<char>) -> Seq<char>
    recommends
        from.len() > 0,
    decreases s.len(),
    when from.len() > 0 via replaced_decreases
{
    match find(s, from) {
        None => s,
        Some(i) => s.take(i) + to + replaced(s.skip(i + from.len()), from, to),
    }
}

#[via_fn]
proof fn replaced_decreases(s: Seq<char>, from: Seq<char>, to: Seq<char>) {
    lemma_find(s, from);
}

/// `s` with every occurrence of `from` replaced by `to`.
pub fn replace(s: &str, from: &str, to: &str) -> (res: String)
    requires
        from@.len() > 0,
    ensures
        res@ == replaced(s@, from@, to@),
{
    let chars = chars_of(s);
    let pattern = chars_of(from);
    let length: usize = chars.len();
    let mut out = String::new();
    let mut at: usize = 0;
    assert(s@.skip(0) =~= s@);
    assert(out@ + replaced(s@, from@, to@) =~= replaced(s@, from@, to@));
    loop
        invariant
            from@.len() > 0,
            chars@ == s@,
            length == s@.len(),
            pattern@ == from@,
            at <= s@.len(),
            out@ + replaced(s@.skip(at as int), from@, to@) == replaced(s@, from@, to@),
        decreases s@.len() - at,
    {
        let ghost rest = s@.skip(at as int);
        let ghost before = out@;
        match find_from(&chars, at, &pattern) {
            None => {
                let tail = string_of(&chars, at, chars.len());
                out.append(tail.as_str());
                assert(tail@ =~= rest);
                return out;
            },
            Some(i) => {
                let head = string_of(&chars, at, i);
                out.append(head.as_str());
                out.append(to);
                proof {
                    let k = i - at;
                    assert(head@ =~= rest.take(k));
                    assert(rest.skip(k + from@.len()) =~= s@.skip(i + from@.len()));
                    assert(out@ + replaced(s@.skip(i + from@.len()), from@, to@) =~= before
                        + replaced(rest, from@, to@));
                }
                at = i + pattern.len();
            },
        }
    }
}

/// The pieces of `s` between the occurrences of `separator`.
pub open spec fn split_text(s: Seq<char>, separator: Seq<char>) -> Seq<Seq<char>>
    recommends
        separator.len() > 0,
    decreases s.len(),
    when separator.len() > 0 via split_text_decreases
{
    match find(s, separator) {
        None => seq![s],
        Some(i) => seq![s.take(i)] + split_text(s.skip(i + separator.len()), separator),
    }
}

#[via_fn]
proof fn split_text_decreases(s: Seq<char>, separator: Seq<char>) {
    lemma_find(s, separator);
}

/// Splitting gives at least one part.
pub proof fn lemma_split_not_empty(s: Seq<char>, separator: Seq<char>)
    requires
        separator.len() > 0,
    ensures
        split_text(s, separator).len() > 0,
{
}

/// A character is found where it first stands.
pub proof fn lemma_find_char(s: Seq<char>, c: char)
    ensures
        find(s, seq![c]) is Some <==> s.contains(c),
        find(s, seq![c]) matches Some(i) ==> 0 <= i < s.len() && s[i] == c,
        find(s, seq![c]) matches Some(i) ==> forall|j: int| 0 <= j < i ==> s[j] != c,
    decreases s.len(),
{
    lemma_find(s, seq![c]);
    if s.len() > 0 {
        let rest = s.drop_first();
        lemma_find_char(rest, c);
        if s[0] == c {
            assert(seq![c].is_prefix_of(s));
        } else {
            assert(!seq![c].is_prefix_of(s)) by {
                if seq![c].is_prefix_of(s) {
                    assert(s[0] == seq![c][0]);
                }
            }
            if rest.contains(c) {
                let k = rest.index_of(c);
                assert(s[k + 1] == c);
            }
            if s.contains(c) {
                let k = s.index_of(c);
                assert(rest[k - 1] == c);
            }
            if let Some(i) = find(s, seq![c]) {
                assert forall|j: int| 0 <= j < i implies s[j] != c by {
                    if j > 0 {
                        assert(rest[j - 1] == s[j]);
                    }
                }
            }
        }
    }
}

/// A text without the separating character is one piece.
pub proof fn lemma_split_whole(s: Seq<char>, c: char)
    requires
        !s.contains(c),
    ensures
        split_text(s, seq![c]) == seq![s],
{
    lemma_find_char(s, c);
}

/// What stands before the first separating character is the first piece.
pub proof fn lemma_split_first(first: Seq<char>, c: char, rest: Seq<char>)
    requires
        !first.contains(c),
    ensures
        split_text(first + seq![c] + rest, seq![c]) == seq![first] + split_text(rest, seq![c]),
{
    let s = first + seq![c] + rest;
    lemma_find_char(s, c);
    assert(s[first.len() as int] == c);
    assert(s.contains(c));
    let i = find(s, seq![c])->0;
    if i < first.len() {
        assert(first[i] == c);
    }
    assert(i == first.len());
    assert(s.take(i) =~= first);
    assert(s.skip(i + 1) =~= rest);
}

/// The pieces hold the separating character nowhere.
pub proof fn lemma_pieces_are_clean(s: Seq<char>, c: char)
    ensures
        forall|i: int|
            0 <= i < split_text(s, seq![c]).len() ==> !(#[trigger] split_text(
                s,
                seq![c],
            )[i]).contains(c),
    decreases s.len(),
{
    lemma_find_char(s, c);
    lemma_find(s, seq![c]);
    match find(s, seq![c]) {
        None => {},
        Some(at) => {
            let rest = s.skip(at + 1);
            lemma_pieces_are_clean(rest, c);
            let pieces = split_text(s, seq![c]);
            assert forall|i: int| 0 <= i < pieces.len() implies !(#[trigger] pieces[i]).contains(
                c,
            ) by {
                if i == 0 {
                    if s.take(at).contains(c) {
                        let k = s.take(at).index_of(c);
                        assert(s[k] == c);
                    }
                } else {
                    assert(pieces[i] == split_text(rest, seq![c])[i - 1]);
                }
            }
        },
    }
}

/// The pieces of `s` between the occurrences of `separator`.
pub fn split(s: &str, separator: &str) -> (parts: Vec<String>)
    requires
        separator@.len() > 0,
    ensures
        texts(parts@) == split_text(s@, separator@),
{
    let chars = chars_of(s);
    let pattern = chars_of(separator);
    let length: usize = chars.len();
    let mut parts: Vec<String> = Vec::new();
    let mut at: usize = 0;
    assert(s@.skip(0) =~= s@);
    assert(texts(parts@) + split_text(s@, separator@) =~= split_text(s@, separator@));
    loop
        invariant
            separator@.len() > 0,
            chars@ == s@,
            length == s@.len(),
            pattern@ == separator@,
            at <= s@.len(),
            texts(parts@) + split_text(s@.skip(at as int), separator@) == split_text(s@, separator@),
        decreases s@.len() - at,
    {
        let ghost rest = s@.skip(at as int);
        let ghost before = parts@;
        match find_from(&chars, at, &pattern) {
            None => {
                let tail = string_of(&chars, at, chars.len());
                assert(tail@ =~= rest);
                parts.push(tail);
                assert(texts(parts@) =~= texts(before) + seq![rest]);
                return parts;
            },
            Some(i) => {
                let head = string_of(&chars, at, i);
                assert(head@ =~= rest.take(i - at));
                parts.push(head);
                proof {
                    assert(rest.skip(i - at + separator@.len()) =~= s@.skip(i + separator@.len()));
                    assert(texts(parts@) =~= texts(before) + seq![rest.take(i - at)]);
                    assert(texts(parts@) + split_text(s@.skip(i + separator@.len()), separator@)
                        =~= texts(before) + split_text(rest, separator@));
                }
                at = i + pattern.len();
            },
        }
    }
}


/// The text before and the text after the first occurrence of `separator`.
pub fn split_once(s: &str, separator: &str) -> (res: Option<(String, String)>)
    ensures
        match find(s@, separator@) {
            Some(i) => res matches Some(halves) && halves.0@ == s@.take(i) && halves.1@ == s@.skip(
                i + separator@.len(),
            ),
            None => res is None,
        },
{
    let chars = chars_of(s);
    let pattern = chars_of(separator);
    let length: usize = chars.len();
    assert(s@.skip(0) =~= s@);
    match find_from(&chars, 0, &pattern) {
        None => None,
        Some(i) => {
            let before = string_of(&chars, 0, i);
            let after = string_of(&chars, i + pattern.len(), length);
            assert(before@ =~= s@.take(i as int));
            assert(after@ =~= s@.skip(i + separator@.len()));
            Some((before, after))
        },
    }
}

/// The lines that the pieces of a text between its line feeds make up.
pub open spec fn lines_of_pieces(pieces: Seq<Seq<char>>) -> Seq<Seq<char>>
    decreases pieces.len(),
{
    if pieces.len() == 0 {
        seq![]
    } else if pieces.len() == 1 {
        if pieces[0].len() == 0 {
            seq![]
        } else {
            pieces
        }
    } else {
        seq![without_carriage_return(pieces[0])] + lines_of_pieces(pieces.drop_first())
    }
}

/// A line without the carriage return before its line feed.
pub open spec fn without_carriage_return(line: Seq<char>) -> Seq<char> {
    if line.len() > 0 && line.last() == '\r' {
        line.drop_last()
    } else {
        line
    }
}

/// The lines of a text. Each ends in a line feed, with or without a carriage return before it; the
/// last may lack its line feed.
pub open spec fn lines_of(s: Seq<char>) -> Seq<Seq<char>> {
    lines_of_pieces(split_text(s, seq!['\n']))
}

/// The lines of `s`.
pub fn lines(s: &str) -> (res: Vec<String>)
    ensures
        texts(res@) == lines_of(s@),
{
    proof {
        reveal_strlit("\n");
        assert("\n"@ =~= seq!['\n']);
    }
    let pieces = split(s, "\n");
    let mut res: Vec<String> = Vec::new();
    let mut i: usize = 0;
    let ghost all = texts(pieces@);
    assert(all.skip(0) =~= all);
    assert(texts(res@) + lines_of_pieces(all) =~= lines_of_pieces(all));
    while i < pieces.len()
        invariant
            all == texts(pieces@),
            all == split_text(s@, seq!['\n']),
            i <= pieces@.len(),
            texts(res@) + lines_of_pieces(all.skip(i as int)) == lines_of(s@),
        decreases pieces@.len() - i,
    {
        let ghost rest = all.skip(i as int);
        let ghost before = res@;
        let chars = chars_of(pieces[i].as_str());
        let last_piece = i == pieces.len() - 1;
        assert(rest[0] == chars@);
        assert(rest.drop_first() =~= all.skip(i + 1));
        if last_piece {
            if chars.len() > 0 {
                res.push(pieces[i].clone());
                assert(texts(res@) =~= texts(before) + seq![chars@]);
                assert(rest =~= seq![chars@]);
            }
            assert(all.skip(i + 1) =~= Seq::<Seq<char>>::empty());
            assert(texts(res@) + lines_of_pieces(all.skip(i + 1)) =~= lines_of(s@));
        } else {
            let end: usize = if chars.len() > 0 && chars[chars.len() - 1] == '\r' {
                chars.len() - 1
            } else {
                chars.len()
            };
            let line = string_of(&chars, 0, end);
            assert(line@ =~= without_carriage_return(chars@));
            res.push(line);
            assert(texts(res@) =~= texts(before) + seq![without_carriage_return(chars@)]);
            assert(texts(res@) + lines_of_pieces(all.skip(i + 1)) =~= texts(before)
                + lines_of_pieces(rest));
        }
        i += 1;
    }
    assert(all.skip(pieces@.len() as int) =~= Seq::<Seq<char>>::empty());
    assert(texts(res@) + lines_of_pieces(Seq::<Seq<char>>::empty()) =~= texts(res@));
    res
}

/// Whether a character has the Unicode property `White_Space`.
pub open spec fn is_white_space(c: char) -> bool {
    ||| '\u{9}' <= c <= '\u{d}'
    ||| c == '\u{20}'
    ||| c == '\u{85}'
    ||| c == '\u{a0}'
    ||| c == '\u{1680}'
    ||| '\u{2000}' <= c <= '\u{200a}'
    ||| c == '\u{2028}'
    ||| c == '\u{2029}'
    ||| c == '\u{202f}'
    ||| c == '\u{205f}'
    ||| c == '\u{3000}'
}

/// Which characters a trimming removes.
pub enum Trim {
    WhiteSpace,
    Only(char),
}

impl Trim {
    /// Whether this trimming removes `c`.
    pub open spec fn takes(self, c: char) -> bool {
        match self {
            Trim::WhiteSpace => is_white_space(c),
            Trim::Only(one) => c == one,
        }
    }

    fn removes(&self, c: char) -> (res: bool)
        ensures
            res == self.takes(c),
    {
        match self {
            Trim::WhiteSpace => {
                ('\u{9}' <= c && c <= '\u{d}') || c == '\u{20}' || c == '\u{85}' || c == '\u{a0}'
                    || c == '\u{1680}' || ('\u{2000}' <= c && c <= '\u{200a}') || c == '\u{2028}'
                    || c == '\u{2029}' || c == '\u{202f}' || c == '\u{205f}' || c == '\u{3000}'
            },
            Trim::Only(one) => c == *one,
        }
    }
}

/// `s` without the characters at its start that `what` removes.
pub open spec fn trimmed_start(s: Seq<char>, what: Trim) -> Seq<char>
    decreases s.len(),
{
    if s.len() > 0 && what.takes(s[0]) {
        trimmed_start(s.drop_first(), what)
    } else {
        s
    }
}

/// `s` without the characters at its end that `what` removes.
pub open spec fn trimmed_end(s: Seq<char>, what: Trim) -> Seq<char>
    decreases s.len(),
{
    if s.len() > 0 && what.takes(s.last()) {
        trimmed_end(s.drop_last(), what)
    } else {
        s
    }
}

/// `s` without the characters at both its ends that `what` removes.
pub open spec fn trimmed(s: Seq<char>, what: Trim) -> Seq<char> {
    trimmed_end(trimmed_start(s, what), what)
}

/// `s` without white space at its ends.
pub open spec fn trimmed_white(s: Seq<char>) -> Seq<char> {
    trimmed(s, Trim::WhiteSpace)
}

/// Removes what `what` says from the start of `s`.
pub fn trim_start(s: &str, what: Trim) -> (res: String)
    ensures
        res@ == trimmed_start(s@, what),
{
    let chars = chars_of(s);
    let mut i: usize = 0;
    assert(s@.skip(0) =~= s@);
    while i < chars.len() && what.removes(chars[i])
        invariant
            chars@ == s@,
            i <= chars@.len(),
            trimmed_start(s@.skip(i as int), what) == trimmed_start(s@, what),
        decreases chars@.len() - i,
    {
        assert(s@.skip(i as int).drop_first() =~= s@.skip(i + 1));
        i += 1;
    }
    let res = string_of(&chars, i, chars.len());
    assert(res@ =~= s@.skip(i as int));
    res
}

/// Removes what `what` says from the end of `s`.
pub fn trim_end(s: &str, what: Trim) -> (res: String)
    ensures
        res@ == trimmed_end(s@, what),
{
    let chars = chars_of(s);
    let mut end: usize = chars.len();
    assert(s@.take(s@.len() as int) =~= s@);
    while end > 0 && what.removes(chars[end - 1])
        invariant
            chars@ == s@,
            end <= chars@.len(),
            trimmed_end(s@.take(end as int), what) == trimmed_end(s@, what),
        decreases end,
    {
        assert(s@.take(end as int).drop_last() =~= s@.take(end - 1));
        assert(s@.take(end as int).last() == s@[end - 1]);
        end -= 1;
    }
    let res = string_of(&chars, 0, end);
    assert(res@ =~= s@.take(end as int));
    res
}

/// Removes what `what` says from both ends of `s`.
pub fn trim_both(s: &str, what: Trim) -> (res: String)
    ensures
        res@ == trimmed(s@, what),
{
    match what {
        Trim::WhiteSpace => {
            let rest = trim_start(s, Trim::WhiteSpace);
            trim_end(rest.as_str(), Trim::WhiteSpace)
        },
        Trim::Only(c) => {
            let rest = trim_start(s, Trim::Only(c));
            trim_end(rest.as_str(), Trim::Only(c))
        },
    }
}

/// Removes white space from both ends of `s`.
pub fn trim(s: &str) -> (res: String)
    ensures
        res@ == trimmed_white(s@),
{
    trim_both(s, Trim::WhiteSpace)
}

/// `s` without the copies of `prefix` that it begins with.
pub open spec fn without_leading(s: Seq<char>, prefix: Seq<char>) -> Seq<char>
    decreases s.len(),
{
    if prefix.len() > 0 && prefix.is_prefix_of(s) {
        without_leading(s.skip(prefix.len() as int), prefix)
    } else {
        s
    }
}

/// Removes the copies of `prefix` that `s` begins with.
pub fn trim_start_text(s: &str, prefix: &str) -> (res: String)
    ensures
        res@ == without_leading(s@, prefix@),
{
    let chars = chars_of(s);
    let pattern = chars_of(prefix);
    let length: usize = chars.len();
    let mut i: usize = 0;
    assert(s@.skip(0) =~= s@);
    while pattern.len() > 0 && occurs_at(&chars, i, &pattern)
        invariant
            chars@ == s@,
            pattern@ == prefix@,
            length == chars@.len(),
            i <= chars@.len(),
            without_leading(s@.skip(i as int), prefix@) == without_leading(s@, prefix@),
        decreases chars@.len() - i,
    {
        assert(s@.skip(i as int).skip(prefix@.len() as int) =~= s@.skip(i + prefix@.len()));
        i += pattern.len();
    }
    let res = string_of(&chars, i, length);
    assert(res@ =~= s@.skip(i as int));
    res
}

/// The texts with `separator` between each two of them.
pub open spec fn joined(parts: Seq<Seq<char>>, separator: Seq<char>) -> Seq<char>
    decreases parts.len(),
{
    if parts.len() == 0 {
        seq![]
    } else if parts.len() == 1 {
        parts[0]
    } else {
        joined(parts.drop_last(), separator) + separator + parts.last()
    }
}

/// The strings with `separator` between each two of them.
pub fn join(parts: &Vec<String>, separator: &str) -> (res: String)
    ensures
        res@ == joined(texts(parts@), separator@),
{
    let mut res = String::new();
    let mut i: usize = 0;
    let ghost all = texts(parts@);
    while i < parts.len()
        invariant
            i <= parts@.len(),
            all == texts(parts@),
            res@ == joined(all.take(i as int), separator@),
        decreases parts@.len() - i,
    {
        if i > 0 {
            res.append(separator);
        }
        res.append(parts[i].as_str());
        assert(all.take(i + 1).drop_last() =~= all.take(i as int));
        assert(all.take(i + 1).last() == parts@[i as int]@);
        assert(res@ =~= joined(all.take(i + 1), separator@));
        i += 1;
    }
    assert(all.take(all.len() as int) =~= all);
    res
}

/// `s` with every ASCII capital letter made small.
pub open spec fn lowered(s: Seq<char>) -> Seq<char> {
    Seq::new(s.len(), |i: int| lowered_char(s[i]))
}

/// The small letter of an ASCII capital letter; any other character is itself.
pub open spec fn lowered_char(c: char) -> char {
    if 'A' <= c <= 'Z' {
        ((c as u32) + 32) as char
    } else {
        c
    }
}

/// `s` with every ASCII capital letter made small.
pub fn to_ascii_lowercase(s: &str) -> (res: String)
    ensures
        res@ == lowered(s@),
{
    let chars = chars_of(s);
    let mut res = String::new();
    let mut i: usize = 0;
    while i < chars.len()
        invariant
            chars@ == s@,
            i <= chars@.len(),
            res@ == lowered(s@).take(i as int),
        decreases chars@.len() - i,
    {
        let c = chars[i];
        let small = if 'A' <= c && c <= 'Z' {
            ((c as u8) + 32) as char
        } else {
            c
        };
        res.push(small);
        assert(lowered(s@).take(i + 1) =~= lowered(s@).take(i as int).push(small));
        i += 1;
    }
    assert(lowered(s@).take(s@.len() as int) =~= lowered(s@));
    res
}

/// Whether every character is a decimal digit of ASCII.
pub open spec fn all_digits(s: Seq<char>) -> bool {
    forall|i: int| 0 <= i < s.len() ==> '0' <= #[trigger] s[i] <= '9'
}

/// Whether every character of `s` is a decimal digit of ASCII.
pub fn is_numeric(s: &str) -> (res: bool)
    ensures
        res == all_digits(s@),
{
    let chars = chars_of(s);
    let mut i: usize = 0;
    while i < chars.len()
        invariant
            chars@ == s@,
            i <= chars@.len(),
            forall|j: int| 0 <= j < i ==> '0' <= #[trigger] chars@[j] <= '9',
        decreases chars@.len() - i,
    {
        if !('0' <= chars[i] && chars[i] <= '9') {
            return false;
        }
        i += 1;
    }
    true
}

/// The pieces of a path without those at its end that are empty or a single dot.
pub open spec fn without_empty_end(pieces: Seq<Seq<char>>) -> Seq<Seq<char>>
    decreases pieces.len(),
{
    if pieces.len() > 0 && (pieces.last().len() == 0 || pieces.last() == "."@) {
        without_empty_end(pieces.drop_last())
    } else {
        pieces
    }
}

/// What stands after the last dot of a name, unless the name has no dot or only one at its start.
pub open spec fn after_last_dot(name: Seq<char>) -> Option<Seq<char>> {
    let pieces = split_text(name, seq!['.']);
    if pieces.len() < 2 || (pieces.len() == 2 && pieces[0].len() == 0) {
        None
    } else {
        Some(pieces.last())
    }
}

/// The extension of the file that a path names.
pub open spec fn extension_of(path: Seq<char>) -> Option<Seq<char>> {
    let pieces = without_empty_end(split_text(path, seq!['/']));
    if pieces.len() == 0 || pieces.last() == ".."@ {
        None
    } else {
        after_last_dot(pieces.last())
    }
}

/// The extension of the file that a path names.
pub fn extension(path: &str) -> (res: Option<String>)
    ensures
        res is Some <==> extension_of(path@) is Some,
        res matches Some(s) ==> extension_of(path@) == Some(s@),
{
    proof {
        reveal_strlit("/");
        reveal_strlit(".");
        assert("/"@ =~= seq!['/']);
        assert("."@ =~= seq!['.']);
    }
    let pieces = split(path, "/");
    let ghost views = texts(pieces@);
    let mut n: usize = pieces.len();
    assert(views.take(n as int) =~= views);
    while n > 0 && (number_of_chars(pieces[n - 1].as_str()) == 0 || same(
        pieces[n - 1].as_str(),
        ".",
    ))
        invariant
            n <= pieces@.len(),
            views == texts(pieces@),
            without_empty_end(views.take(n as int)) == without_empty_end(views),
        decreases n,
    {
        proof {
            assert(views.take(n as int).last() == pieces@[n - 1]@);
            assert(views.take(n as int).drop_last() =~= views.take(n - 1));
        }
        n -= 1;
    }
    if n == 0 {
        return None;
    }
    assert(views.take(n as int).last() == pieces@[n - 1]@);
    let name = &pieces[n - 1];
    if same(name.as_str(), "..") {
        return None;
    }
    let parts = split(name.as_str(), ".");
    let count: usize = parts.len();
    let ghost part_views = texts(parts@);
    if count < 2 {
        return None;
    }
    assert(part_views[0] == parts@[0]@ && part_views.last() == parts@[count - 1]@);
    if count == 2 && number_of_chars(parts[0].as_str()) == 0 {
        return None;
    }
    Some(parts[count - 1].clone())
}

/// How many characters `s` has.
pub fn number_of_chars(s: &str) -> (n: usize)
    ensures
        n == s@.len(),
{
    chars_of(s).len()
}

/// How often `pattern` occurs in `s`, without overlaps.
pub open spec fn occurrences(s: Seq<char>, pattern: Seq<char>) -> int {
    split_text(s, pattern).len() - 1
}

/// What was replaced is gone, where it does not stand in what replaces it.
pub proof fn lemma_replaced_is_gone(s: Seq<char>, c: char, to: Seq<char>)
    requires
        !to.contains(c),
    ensures
        !replaced(s, seq![c], to).contains(c),
    decreases s.len(),
{
    lemma_find_char(s, c);
    lemma_find(s, seq![c]);
    match find(s, seq![c]) {
        None => {},
        Some(i) => {
            let rest = replaced(s.skip(i + 1), seq![c], to);
            lemma_replaced_is_gone(s.skip(i + 1), c, to);
            let all = s.take(i) + to + rest;
            assert(replaced(s, seq![c], to) == all);
            if all.contains(c) {
                let k = all.index_of(c);
                if k < i {
                    assert(s[k] == c);
                } else if k < i + to.len() {
                    assert(to[k - i] == c);
                } else {
                    assert(rest[k - i - to.len()] == c);
                }
            }
        },
    }
}

/// Replacing brings in no character that neither the text nor the replacement has.
pub proof fn lemma_replaced_adds_nothing(s: Seq<char>, from: Seq<char>, to: Seq<char>, c: char)
    requires
        from.len() > 0,
        !s.contains(c),
        !to.contains(c),
    ensures
        !replaced(s, from, to).contains(c),
    decreases s.len(),
{
    lemma_find(s, from);
    match find(s, from) {
        None => {},
        Some(i) => {
            let tail = s.skip(i + from.len());
            if tail.contains(c) {
                let k = tail.index_of(c);
                assert(s[k + i + from.len()] == c);
            }
            let rest = replaced(tail, from, to);
            lemma_replaced_adds_nothing(tail, from, to, c);
            let all = s.take(i) + to + rest;
            assert(replaced(s, from, to) == all);
            if all.contains(c) {
                let k = all.index_of(c);
                if k < i {
                    assert(s[k] == c);
                } else if k < i + to.len() {
                    assert(to[k - i] == c);
                } else {
                    assert(rest[k - i - to.len()] == c);
                }
            }
        },
    }
}

/// What stands before the first `mark`, and what stands behind it.
pub proof fn lemma_mark_splits(mark: char, a: Seq<char>, x: Seq<char>, b: Seq<char>, y: Seq<char>)
    requires
        !a.contains(mark),
        !b.contains(mark),
        a + seq![mark] + x == b + seq![mark] + y,
    ensures
        a == b,
        x == y,
{
    let whole = a + seq![mark] + x;
    let other = b + seq![mark] + y;
    assert(whole[a.len() as int] == mark);
    assert(other[b.len() as int] == mark);
    if a.len() < b.len() {
        assert(other[a.len() as int] == b[a.len() as int]);
        assert(false);
    }
    if b.len() < a.len() {
        assert(whole[b.len() as int] == a[b.len() as int]);
        assert(false);
    }
    assert(a =~= whole.take(a.len() as int));
    assert(b =~= other.take(a.len() as int));
    assert(x =~= whole.skip(a.len() as int + 1));
    assert(y =~= other.skip(a.len() as int + 1));
}

/// Whether `pattern` stands in `s` at place `at`.
pub open spec fn stands_at(s: Seq<char>, pattern: Seq<char>, at: int) -> bool {
    0 <= at && at + pattern.len() <= s.len() && s.subrange(at, at + pattern.len()) == pattern
}

/// Whether `pattern` stands anywhere in `s`.
pub open spec fn holds(s: Seq<char>, pattern: Seq<char>) -> bool {
    exists|at: int| stands_at(s, pattern, at)
}

/// A search gives the first place where the pattern stands, and none only where it stands nowhere.
pub proof fn law_find_is_first(s: Seq<char>, pattern: Seq<char>)
    ensures
        match find(s, pattern) {
            Some(i) => stands_at(s, pattern, i) && forall|j: int|
                j < i ==> !stands_at(s, pattern, j),
            None => !holds(s, pattern),
        },
    decreases s.len(),
{
    lemma_find(s, pattern);
    if stands_at(s, pattern, 0) {
        assert(s.subrange(0, pattern.len() as int) == pattern);
        assert(pattern.is_prefix_of(s));
    }
    if !pattern.is_prefix_of(s) && s.len() > 0 {
        let rest = s.drop_first();
        law_find_is_first(rest, pattern);
        assert forall|j: int| j > 0 && stands_at(s, pattern, j) implies stands_at(
            rest,
            pattern,
            j - 1,
        ) by {
            assert(rest.subrange(j - 1, j - 1 + pattern.len()) =~= s.subrange(
                j,
                j + pattern.len(),
            ));
        }
        if find(rest, pattern) is None {
            assert forall|j: int| !stands_at(s, pattern, j) by {
                if stands_at(s, pattern, j) {
                    if j == 0 {
                        assert(pattern.is_prefix_of(s));
                    } else {
                        assert(stands_at(rest, pattern, j - 1));
                    }
                }
            }
        } else {
            let i = find(s, pattern)->0;
            assert forall|j: int| j < i implies !stands_at(s, pattern, j) by {
                if stands_at(s, pattern, j) {
                    if j == 0 {
                        assert(pattern.is_prefix_of(s));
                    } else {
                        assert(stands_at(rest, pattern, j - 1));
                    }
                }
            }
        }
    } else if !pattern.is_prefix_of(s) {
        assert forall|j: int| !stands_at(s, pattern, j) by {
            if stands_at(s, pattern, j) {
                assert(j == 0);
                assert(pattern.is_prefix_of(s));
            }
        }
    }
}

/// Joined texts can be taken apart before the second one.
pub proof fn lemma_joined_front(parts: Seq<Seq<char>>, separator: Seq<char>)
    requires
        parts.len() >= 2,
    ensures
        joined(parts, separator) == parts[0] + separator + joined(parts.drop_first(), separator),
    decreases parts.len(),
{
    let rest = parts.drop_first();
    if parts.len() == 2 {
        assert(parts.drop_last() =~= seq![parts[0]]);
        assert(rest =~= seq![parts[1]]);
        assert(joined(seq![parts[0]], separator) == parts[0]);
        assert(joined(seq![parts[1]], separator) == parts[1]);
        assert(parts.last() == parts[1]);
    } else {
        lemma_joined_front(parts.drop_last(), separator);
        assert(parts.drop_last().drop_first() =~= rest.drop_last());
        assert(rest.last() == parts.last());
        assert(joined(parts, separator) =~= parts[0] + separator + (joined(
            rest.drop_last(),
            separator,
        ) + separator + parts.last()));
    }
}

/// To join two lists of texts is to join each and then both; one text joined is itself, and no text
/// is nothing.
pub proof fn law_joining(a: Seq<Seq<char>>, b: Seq<Seq<char>>, one: Seq<char>, separator: Seq<char>)
    requires
        a.len() > 0,
        b.len() > 0,
    ensures
        joined(a + b, separator) == joined(a, separator) + separator + joined(b, separator),
        joined(seq![one], separator) == one,
        joined(Seq::empty(), separator) == Seq::<char>::empty(),
    decreases a.len(),
{
    let all = a + b;
    lemma_joined_front(all, separator);
    if a.len() == 1 {
        assert(all.drop_first() =~= b);
        assert(a =~= seq![a[0]]);
    } else {
        assert(all.drop_first() =~= a.drop_first() + b);
        law_joining(a.drop_first(), b, one, separator);
        lemma_joined_front(a, separator);
        assert(joined(all, separator) =~= joined(a, separator) + separator + joined(b, separator));
    }
}

/// A text is what its pieces make up with the separator between them, and no piece holds the
/// separator.
pub proof fn law_splitting_undoes_joining(s: Seq<char>, separator: Seq<char>)
    requires
        separator.len() > 0,
    ensures
        split_text(s, separator).len() > 0,
        joined(split_text(s, separator), separator) == s,
        forall|i: int|
            0 <= i < split_text(s, separator).len() ==> !holds(
                #[trigger] split_text(s, separator)[i],
                separator,
            ),
    decreases s.len(),
{
    law_find_is_first(s, separator);
    let pieces = split_text(s, separator);
    match find(s, separator) {
        None => {
            assert(pieces =~= seq![s]);
        },
        Some(i) => {
            let rest = s.skip(i + separator.len());
            let first = s.take(i);
            let others = split_text(rest, separator);
            law_splitting_undoes_joining(rest, separator);
            assert(pieces =~= seq![first] + others);
            lemma_joined_front(pieces, separator);
            assert(pieces.drop_first() =~= others);
            assert(s =~= first + separator + rest) by {
                assert(s.subrange(i, i + separator.len()) == separator);
            }
            assert forall|k: int| 0 <= k < pieces.len() implies !holds(
                #[trigger] pieces[k],
                separator,
            ) by {
                if k == 0 {
                    if holds(first, separator) {
                        let at = choose|at: int| stands_at(first, separator, at);
                        assert(s.subrange(at, at + separator.len()) =~= first.subrange(
                            at,
                            at + separator.len(),
                        ));
                        assert(stands_at(s, separator, at));
                    }
                } else {
                    assert(pieces[k] == others[k - 1]);
                }
            }
        },
    }
}

/// To replace a text is to cut at every place where it stands and to join the pieces with the other
/// text: every one of them is replaced, and nothing else changes.
pub proof fn law_replacing_is_splitting_and_joining(s: Seq<char>, from: Seq<char>, to: Seq<char>)
    requires
        from.len() > 0,
    ensures
        replaced(s, from, to) == joined(split_text(s, from), to),
        !holds(s, from) ==> replaced(s, from, to) == s,
    decreases s.len(),
{
    law_find_is_first(s, from);
    let pieces = split_text(s, from);
    match find(s, from) {
        None => {
            assert(pieces =~= seq![s]);
            assert(joined(seq![s], to) == s);
        },
        Some(i) => {
            let rest = s.skip(i + from.len());
            law_replacing_is_splitting_and_joining(rest, from, to);
            lemma_split_not_empty(rest, from);
            assert(pieces =~= seq![s.take(i)] + split_text(rest, from));
            lemma_joined_front(pieces, to);
            assert(pieces.drop_first() =~= split_text(rest, from));
            assert(holds(s, from));
        },
    }
}

proof fn lemma_trimmed_start(s: Seq<char>, what: Trim) -> (n: int)
    ensures
        0 <= n <= s.len(),
        trimmed_start(s, what) == s.skip(n),
        forall|i: int| 0 <= i < n ==> what.takes(#[trigger] s[i]),
        n < s.len() ==> !what.takes(s[n]),
    decreases s.len(),
{
    if s.len() > 0 && what.takes(s[0]) {
        let n = lemma_trimmed_start(s.drop_first(), what);
        assert(s.drop_first().skip(n) =~= s.skip(n + 1));
        assert forall|i: int| 0 <= i < n + 1 implies what.takes(#[trigger] s[i]) by {
            if i > 0 {
                assert(s.drop_first()[i - 1] == s[i]);
            }
        }
        n + 1
    } else {
        assert(s.skip(0) =~= s);
        0
    }
}

proof fn lemma_trimmed_end(s: Seq<char>, what: Trim) -> (n: int)
    ensures
        0 <= n <= s.len(),
        trimmed_end(s, what) == s.take(n),
        forall|i: int| n <= i < s.len() ==> what.takes(#[trigger] s[i]),
        n > 0 ==> !what.takes(s[n - 1]),
    decreases s.len(),
{
    if s.len() > 0 && what.takes(s.last()) {
        let n = lemma_trimmed_end(s.drop_last(), what);
        assert(s.drop_last().take(n) =~= s.take(n));
        assert forall|i: int| n <= i < s.len() implies what.takes(#[trigger] s[i]) by {
            if i < s.len() - 1 {
                assert(s.drop_last()[i] == s[i]);
            }
        }
        n
    } else {
        assert(s.take(s.len() as int) =~= s);
        s.len() as int
    }
}

/// Trimming takes away all that it removes at the ends of a text, and nothing else: what is left
/// begins and ends with a character that is kept, and what was taken away holds none.
pub proof fn law_trimming(s: Seq<char>, what: Trim)
    ensures
        exists|a: Seq<char>, b: Seq<char>|
            s == #[trigger] (a + trimmed(s, what) + b) && (forall|i: int|
                0 <= i < a.len() ==> what.takes(#[trigger] a[i])) && (forall|i: int|
                0 <= i < b.len() ==> what.takes(#[trigger] b[i])),
        trimmed(s, what).len() > 0 ==> !what.takes(trimmed(s, what)[0]) && !what.takes(
            trimmed(s, what).last(),
        ),
        exists|b: Seq<char>|
            s == #[trigger] (trimmed_end(s, what) + b) && forall|i: int|
                0 <= i < b.len() ==> what.takes(#[trigger] b[i]),
        trimmed_end(s, what).len() > 0 ==> !what.takes(trimmed_end(s, what).last()),
{
    let n = lemma_trimmed_start(s, what);
    let rest = s.skip(n);
    let m = lemma_trimmed_end(rest, what);
    let a = s.take(n);
    let b = rest.skip(m);
    assert(s =~= a + trimmed(s, what) + b);
    assert forall|i: int| 0 <= i < a.len() implies what.takes(#[trigger] a[i]) by {
        assert(a[i] == s[i]);
    }
    assert forall|i: int| 0 <= i < b.len() implies what.takes(#[trigger] b[i]) by {
        assert(b[i] == rest[m + i]);
    }
    if m > 0 {
        assert(trimmed(s, what)[0] == s[n]);
        assert(trimmed(s, what).last() == rest[m - 1]);
    }
    let k = lemma_trimmed_end(s, what);
    let c = s.skip(k);
    assert(s =~= trimmed_end(s, what) + c);
    assert forall|i: int| 0 <= i < c.len() implies what.takes(#[trigger] c[i]) by {
        assert(c[i] == s[k + i]);
    }
    if k > 0 {
        assert(trimmed_end(s, what).last() == s[k - 1]);
    }
}

/// Every copy of a prefix at the start of a text is removed, and nothing else.
pub proof fn law_leading_copies_are_removed(s: Seq<char>, prefix: Seq<char>)
    requires
        prefix.len() > 0,
    ensures
        without_leading(prefix + s, prefix) == without_leading(s, prefix),
        !prefix.is_prefix_of(s) ==> without_leading(s, prefix) == s,
        !prefix.is_prefix_of(without_leading(s, prefix)),
    decreases s.len(),
{
    assert((prefix + s).subrange(0, prefix.len() as int) =~= prefix);
    assert((prefix + s).skip(prefix.len() as int) =~= s);
    if prefix.is_prefix_of(s) {
        law_leading_copies_are_removed(s.skip(prefix.len() as int), prefix);
    }
}

/// The lines of a text are its first line, without the line end, and the lines of what follows; a
/// last line without a line end counts, and an empty one does not.
pub proof fn law_lines(first: Seq<char>, rest: Seq<char>)
    requires
        !first.contains('\n'),
    ensures
        lines_of(first + seq!['\n'] + rest) == seq![without_carriage_return(first)] + lines_of(rest),
        lines_of(first) == if first.len() == 0 {
            Seq::<Seq<char>>::empty()
        } else {
            seq![first]
        },
        without_carriage_return(first + seq!['\r']) == first,
        !first.contains('\r') ==> without_carriage_return(first) == first,
{
    lemma_split_first(first, '\n', rest);
    lemma_split_whole(first, '\n');
    lemma_split_not_empty(rest, seq!['\n']);
    let pieces = seq![first] + split_text(rest, seq!['\n']);
    assert(pieces.drop_first() =~= split_text(rest, seq!['\n']));
    assert((first + seq!['\r']).drop_last() =~= first);
    if first.len() > 0 && first.last() == '\r' {
        assert(first[first.len() - 1] == '\r');
    }
}

/// Whether two of the character `mark` stand side by side in `s`.
pub open spec fn doubles(s: Seq<char>, mark: char) -> bool {
    exists|i: int| 0 <= i && i + 1 < s.len() && #[trigger] s[i] == mark && s[i + 1] == mark
}

/// What is replaced is gone, and replacing brings in no text that was not there, where the new text
/// begins with a character that the other text has at most behind its first, holds nothing of that
/// other text itself, and its first character never stands twice in a row.
pub proof fn lemma_replacing_brings_in_nothing(
    s: Seq<char>,
    from: Seq<char>,
    to: Seq<char>,
    other: Seq<char>,
)
    requires
        from.len() > 0,
        to.len() > 0,
        other.len() > 0,
        forall|d: int|
            1 <= d < other.len() && #[trigger] other[d] == to[0] ==> d == 1 && other[0] == from[0]
                && !doubles(s, from[0]),
        forall|p: int|
            0 <= p < to.len() ==> to[p] != other[0] || (#[trigger] to[p] == other[0] && p + 1
                < to.len() && other.len() > 1 && to[p + 1] != other[1]),
    ensures
        holds(replaced(s, from, to), other) ==> holds(s, other) && other != from,
    decreases s.len(),
{
    law_find_is_first(s, from);
    let out = replaced(s, from, to);
    if holds(out, other) {
        let p = choose|p: int| stands_at(out, other, p);
        match find(s, from) {
            None => {
                assert(out == s);
            },
            Some(i) => {
                let tail = s.skip(i + from.len());
                let rest = replaced(tail, from, to);
                assert(out =~= s.take(i) + to + rest);
                if doubles(tail, from[0]) {
                    let k = choose|k: int|
                        0 <= k && k + 1 < tail.len() && #[trigger] tail[k] == from[0] && tail[k + 1]
                            == from[0];
                    assert(s[i + from.len() + k] == from[0]);
                    assert(doubles(s, from[0]));
                }
                lemma_replacing_brings_in_nothing(tail, from, to, other);
                assert forall|d: int| 0 <= d < other.len() implies out[p + d] == #[trigger] other[d] by {
                    assert(out.subrange(p, p + other.len())[d] == out[p + d]);
                }
                if p + other.len() <= i {
                    assert(s.subrange(p, p + other.len()) =~= other);
                    assert(stands_at(s, other, p));
                    if other == from {
                        assert(stands_at(s, from, p));
                    }
                } else if p < i {
                    let d = i - p;
                    assert(out[p + d] == to[0]);
                    assert(other[d] == to[0]);
                    assert(s[i - 1] == other[0]);
                    assert(s.subrange(i, i + from.len())[0] == s[i]);
                    assert(doubles(s, from[0]));
                    assert(false);
                } else if p < i + to.len() {
                    assert(out[p] == to[p - i]);
                    assert(other[0] == to[p - i]);
                    assert(out[p + 1] == to[p - i + 1]);
                    assert(other[1] == out[p + 1]);
                    assert(false);
                } else {
                    let q = p - i - to.len();
                    assert(rest.subrange(q, q + other.len()) =~= other);
                    assert(stands_at(rest, other, q));
                    let k = choose|k: int| stands_at(tail, other, k);
                    assert(s.subrange(k + i + from.len(), k + i + from.len() + other.len())
                        =~= tail.subrange(k, k + other.len()));
                    assert(stands_at(s, other, k + i + from.len()));
                }
            },
        }
    }
}

/// Replacing puts no two marks side by side where there were none and the new text has none.
pub proof fn lemma_replacing_doubles_nothing(s: Seq<char>, from: Seq<char>, to: Seq<char>, mark: char)
    requires
        from.len() > 0,
        to.len() > 0,
        !to.contains(mark),
        !doubles(s, mark),
    ensures
        !doubles(replaced(s, from, to), mark),
    decreases s.len(),
{
    lemma_find(s, from);
    match find(s, from) {
        None => {},
        Some(i) => {
            let tail = s.skip(i + from.len());
            let rest = replaced(tail, from, to);
            let out = s.take(i) + to + rest;
            assert(replaced(s, from, to) == out);
            if doubles(tail, mark) {
                let k = choose|k: int|
                    0 <= k && k + 1 < tail.len() && #[trigger] tail[k] == mark && tail[k + 1]
                        == mark;
                assert(s[i + from.len() + k] == mark);
                assert(doubles(s, mark));
            }
            lemma_replacing_doubles_nothing(tail, from, to, mark);
            if doubles(out, mark) {
                let k = choose|k: int|
                    0 <= k && k + 1 < out.len() && #[trigger] out[k] == mark && out[k + 1] == mark;
                if k + 1 < i {
                    assert(s[k] == mark && s[k + 1] == mark);
                    assert(doubles(s, mark));
                } else if k + 1 == i {
                    assert(to[0] == mark);
                    assert(to.contains(mark));
                } else if k < i + to.len() {
                    assert(to[k - i] == mark);
                    assert(to.contains(mark));
                } else {
                    let q = k - i - to.len();
                    assert(rest[q] == mark && rest[q + 1] == mark);
                    assert(doubles(rest, mark));
                }
            }
        },
    }
}

/// What stands before a text's first mark is not touched when a text that begins with the mark is
/// replaced.
pub proof fn lemma_replacing_behind(
    clean: Seq<char>,
    s: Seq<char>,
    from: Seq<char>,
    to: Seq<char>,
)
    requires
        from.len() > 0,
        !clean.contains(from[0]),
    ensures
        replaced(clean + s, from, to) == clean + replaced(s, from, to),
{
    let all = clean + s;
    law_find_is_first(all, from);
    law_find_is_first(s, from);
    assert forall|k: int| stands_at(all, from, k) implies k >= clean.len() && stands_at(
        s,
        from,
        k - clean.len(),
    ) by {
        assert(all.subrange(k, k + from.len())[0] == all[k]);
        if k < clean.len() {
            assert(clean[k] == from[0]);
        }
        assert(s.subrange(k - clean.len(), k - clean.len() + from.len()) =~= all.subrange(
            k,
            k + from.len(),
        ));
    }
    assert forall|k: int| stands_at(s, from, k) implies stands_at(all, from, k + clean.len()) by {
        assert(all.subrange(k + clean.len(), k + clean.len() + from.len()) =~= s.subrange(
            k,
            k + from.len(),
        ));
    }
    match find(s, from) {
        None => {
            if holds(all, from) {
                let k = choose|k: int| stands_at(all, from, k);
                assert(stands_at(s, from, k - clean.len()));
            }
        },
        Some(i) => {
            assert(stands_at(all, from, i + clean.len()));
            let j = find(all, from)->0;
            if find(all, from) is None {
                assert(holds(all, from));
            }
            assert(stands_at(s, from, j - clean.len()));
            assert(j == i + clean.len());
            assert(all.take(j) =~= clean + s.take(i));
            assert(all.skip(j + from.len()) =~= s.skip(i + from.len()));
            assert(replaced(all, from, to) =~= clean + replaced(s, from, to));
        },
    }
}

/// A text at the start of another is replaced, and so is what follows.
pub proof fn lemma_replacing_at_the_start(s: Seq<char>, from: Seq<char>, to: Seq<char>)
    requires
        from.len() > 0,
    ensures
        replaced(from + s, from, to) == to + replaced(s, from, to),
{
    let all = from + s;
    assert(all.subrange(0, from.len() as int) =~= from);
    assert(from.is_prefix_of(all));
    assert(find(all, from) == Some(0int));
    assert(all.take(0) =~= Seq::<char>::empty());
    assert(all.skip(0int + from.len()) =~= s);
    assert(Seq::<char>::empty() + to + replaced(s, from, to) =~= to + replaced(s, from, to));
}

/// A tag that is closed and holds no other is not touched when another such tag is replaced.
#[verifier::rlimit(40)]
pub proof fn lemma_replacing_skips_a_tag(
    tag: Seq<char>,
    s: Seq<char>,
    from: Seq<char>,
    to: Seq<char>,
    close: char,
)
    requires
        from.len() > 1,
        tag.len() > 1,
        !tag.drop_first().contains(from[0]),
        tag.last() == close,
        from.last() == close,
        !from.drop_last().contains(close),
        !from.is_prefix_of(tag),
    ensures
        replaced(tag + s, from, to) == tag + replaced(s, from, to),
{
    let all = tag + s;
    let one = tag.take(1);
    let inner = tag.drop_first();
    assert(!from.is_prefix_of(all)) by {
        if from.is_prefix_of(all) {
            if from.len() <= tag.len() {
                assert(from =~= tag.subrange(0, from.len() as int)) by {
                    assert(all.subrange(0, from.len() as int) == from);
                    assert forall|k: int| 0 <= k < from.len() implies from[k] == #[trigger] tag[k] by {
                        assert(all.subrange(0, from.len() as int)[k] == all[k]);
                    }
                }
                assert(from.is_prefix_of(tag));
            } else {
                let k = tag.len() - 1;
                assert(all.subrange(0, from.len() as int)[k] == all[k]);
                assert(from[k] == close);
                assert(from.drop_last()[k] == close);
            }
        }
    }
    let tail = inner + s;
    assert(all.drop_first() =~= tail);
    lemma_replacing_behind(inner, s, from, to);
    law_find_is_first(tail, from);
    match find(tail, from) {
        None => {
            assert(find(all, from) is None);
            assert(replaced(tail, from, to) == tail);
            assert(replaced(all, from, to) =~= one + replaced(tail, from, to));
        },
        Some(i) => {
            assert(find(all, from) == Some(i + 1));
            assert(all.take(i + 1) =~= one + tail.take(i));
            assert(all.skip(i + 1 + from.len()) =~= tail.skip(i + from.len()));
            assert(replaced(all, from, to) =~= one + replaced(tail, from, to));
        },
    }
    assert(one + (inner + replaced(s, from, to)) =~= tag + replaced(s, from, to));
}

/// A word is not touched when another is replaced that does not begin it, where what follows the
/// word does not stand in the other.
pub proof fn lemma_replacing_skips_a_word(
    word: Seq<char>,
    s: Seq<char>,
    from: Seq<char>,
    to: Seq<char>,
)
    requires
        from.len() > 0,
        word.len() > 0,
        !word.drop_first().contains(from[0]),
        !from.is_prefix_of(word),
        s.len() > 0 ==> !from.contains(s[0]),
    ensures
        replaced(word + s, from, to) == word + replaced(s, from, to),
{
    let all = word + s;
    let one = word.take(1);
    let inner = word.drop_first();
    assert(!from.is_prefix_of(all)) by {
        if from.is_prefix_of(all) {
            assert forall|k: int| 0 <= k < from.len() implies from[k] == #[trigger] all[k] by {
                assert(all.subrange(0, from.len() as int)[k] == all[k]);
            }
            if from.len() <= word.len() {
                assert(from =~= word.subrange(0, from.len() as int)) by {
                    assert forall|k: int| 0 <= k < from.len() implies from[k] == word[k] by {
                        assert(from[k] == all[k]);
                    }
                }
                assert(from.is_prefix_of(word));
            } else {
                let k = word.len() as int;
                assert(from[k] == all[k]);
                assert(all[k] == s[0]);
                assert(from.contains(s[0]));
            }
        }
    }
    let tail = inner + s;
    assert(all.drop_first() =~= tail);
    lemma_replacing_behind(inner, s, from, to);
    law_find_is_first(tail, from);
    match find(tail, from) {
        None => {
            assert(find(all, from) is None);
            assert(replaced(all, from, to) =~= one + replaced(tail, from, to));
        },
        Some(i) => {
            assert(find(all, from) == Some(i + 1));
            assert(all.take(i + 1) =~= one + tail.take(i));
            assert(all.skip(i + 1 + from.len()) =~= tail.skip(i + from.len()));
            assert(replaced(all, from, to) =~= one + replaced(tail, from, to));
        },
    }
    assert(one + (inner + replaced(s, from, to)) =~= word + replaced(s, from, to));
}

/// Splitting at a character goes on over it: what stands on either side of one is split by itself.
pub proof fn law_splitting_at_a_character(a: Seq<char>, c: char, b: Seq<char>)
    ensures
        split_text(a + seq![c] + b, seq![c]) == split_text(a, seq![c]) + split_text(b, seq![c]),
        !a.contains(c) ==> split_text(a, seq![c]) == seq![a],
    decreases a.len(),
{
    if !a.contains(c) {
        lemma_split_whole(a, c);
        lemma_split_first(a, c, b);
    } else {
        let i = a.index_of_first(c);
        a.index_of_first_ensures(c);
        let at = i->0;
        let first = a.take(at);
        let rest = a.skip(at + 1);
        assert(!first.contains(c)) by {
            if first.contains(c) {
                let k = first.index_of(c);
                assert(a[k] == c);
            }
        }
        assert(a =~= first + seq![c] + rest);
        assert(a + seq![c] + b =~= first + seq![c] + (rest + seq![c] + b));
        lemma_split_first(first, c, rest);
        lemma_split_first(first, c, rest + seq![c] + b);
        law_splitting_at_a_character(rest, c, b);
        assert(seq![first] + (split_text(rest, seq![c]) + split_text(b, seq![c])) =~= (seq![first]
            + split_text(rest, seq![c])) + split_text(b, seq![c]));
    }
}

/// Replacing a character goes text by text: what stands before is replaced by itself, and so is what
/// follows.
#[verifier::rlimit(40)]
pub proof fn law_replacing_a_character(a: Seq<char>, b: Seq<char>, c: char, to: Seq<char>)
    ensures
        replaced(a + b, seq![c], to) == replaced(a, seq![c], to) + replaced(b, seq![c], to),
        replaced(seq![c], seq![c], to) == to,
        forall|other: char| other != c ==> #[trigger] replaced(seq![other], seq![c], to) == seq![
            other,
        ],
        replaced(Seq::empty(), seq![c], to) == Seq::<char>::empty(),
    decreases a.len(),
{
    let from = seq![c];
    law_find_is_first(Seq::empty(), from);
    lemma_find_char(Seq::empty(), c);
    assert(!Seq::<char>::empty().contains(c));
    assert(replaced(Seq::empty(), from, to) =~= Seq::empty());
    lemma_replacing_at_the_start(Seq::empty(), from, to);
    assert(from + Seq::<char>::empty() =~= from);
    assert(to + Seq::<char>::empty() =~= to);
    assert forall|other: char| other != c implies #[trigger] replaced(seq![other], from, to)
        == seq![other] by {
        lemma_find_char(seq![other], c);
        assert(!seq![other].contains(c)) by {
            if seq![other].contains(c) {
                assert(seq![other][0] == c);
            }
        }
    }
    if a.len() == 0 {
        assert(a =~= Seq::empty());
        assert(a + b =~= b);
        assert(Seq::<char>::empty() + replaced(b, from, to) =~= replaced(b, from, to));
    } else {
        let one = seq![a[0]];
        let rest = a.drop_first();
        law_replacing_a_character(rest, b, c, to);
        assert(a =~= one + rest);
        assert(a + b =~= one + (rest + b));
        if a[0] == c {
            lemma_replacing_at_the_start(rest, from, to);
            lemma_replacing_at_the_start(rest + b, from, to);
        } else {
            assert(!one.contains(c)) by {
                if one.contains(c) {
                    assert(one[0] == c);
                }
            }
            lemma_replacing_behind(one, rest, from, to);
            lemma_replacing_behind(one, rest + b, from, to);
        }
        let head = if a[0] == c {
            to
        } else {
            one
        };
        assert(head + (replaced(rest, from, to) + replaced(b, from, to)) =~= (head + replaced(
            rest,
            from,
            to,
        )) + replaced(b, from, to));
    }
}

/// Text that neither begins nor ends with what is trimmed stays, and what is trimmed before or
/// behind it goes.
pub proof fn law_trimming_stops(a: Seq<char>, s: Seq<char>, b: Seq<char>, what: Trim)
    requires
        s.len() > 0,
        !what.takes(s[0]),
        !what.takes(s.last()),
        forall|i: int| 0 <= i < a.len() ==> what.takes(#[trigger] a[i]),
        forall|i: int| 0 <= i < b.len() ==> what.takes(#[trigger] b[i]),
    ensures
        trimmed(a + s + b, what) == s,
        trimmed_start(a + s + b, what) == s + b,
        trimmed_end(s + b, what) == s,
{
    let all = a + s + b;
    let n = lemma_trimmed_start(all, what);
    if n < a.len() {
        assert(all[n] == a[n]);
    }
    if n > a.len() {
        assert(all[a.len() as int] == s[0]);
    }
    assert(all.skip(n) =~= s + b);
    let m = lemma_trimmed_end(s + b, what);
    if m < s.len() {
        assert((s + b)[s.len() - 1] == s.last());
    }
    if m > s.len() {
        assert((s + b)[m - 1] == b[m - 1 - s.len()]);
    }
    assert((s + b).take(m) =~= s);
}

/// Only capital letters change, each into its small letter, and every text is read alike whatever
/// its case.
pub proof fn law_lowering(s: Seq<char>, i: int)
    requires
        0 <= i < s.len(),
    ensures
        lowered(s).len() == s.len(),
        'A' <= s[i] <= 'Z' ==> lowered(s)[i] as int == s[i] as int + ('a' as int - 'A' as int),
        !('A' <= s[i] <= 'Z') ==> lowered(s)[i] == s[i],
        lowered(lowered(s)) == lowered(s),
{
    assert(lowered(lowered(s)) =~= lowered(s));
}

/// The extension is what stands behind the last dot of a name, where something stands before that
/// dot; the directories before the name do not matter, nor does a slash behind it.
pub proof fn law_extensions(directory: Seq<char>, stem: Seq<char>, end: Seq<char>)
    requires
        stem.len() > 0,
        !stem.contains('/'),
        !end.contains('/'),
        !end.contains('.'),
        stem != "."@ || end.len() > 0,
    ensures
        extension_of(directory + seq!['/'] + (stem + seq!['.'] + end)) == Some(end),
        extension_of(stem + seq!['.'] + end) == Some(end),
        end.len() > 0 ==> extension_of(directory + seq!['/'] + end) is None,
        end.len() > 0 ==> extension_of(directory + seq!['/'] + (seq!['.'] + end)) is None,
        extension_of(directory + seq!['/']) == extension_of(directory),
{
    reveal_strlit(".");
    reveal_strlit("..");
    let name = stem + seq!['.'] + end;
    lemma_clean_joined(stem, seq!['.'], '/');
    lemma_clean_joined(stem + seq!['.'], end, '/');
    lemma_clean_joined(seq!['.'], end, '/');
    law_splitting_at_a_character(directory, '/', name);
    law_splitting_at_a_character(directory, '/', end);
    law_splitting_at_a_character(directory, '/', seq!['.'] + end);
    law_splitting_at_a_character(directory, '/', Seq::empty());
    assert(directory + seq!['/'] + Seq::<char>::empty() =~= directory + seq!['/']);
    assert(!Seq::<char>::empty().contains('/'));
    lemma_split_whole(Seq::empty(), '/');
    lemma_split_whole(name, '/');
    lemma_split_whole(end, '/');
    lemma_split_whole(seq!['.'] + end, '/');
    let outer = split_text(directory, seq!['/']);
    lemma_split_not_empty(directory, seq!['/']);
    law_splitting_at_a_character(stem, '.', end);
    lemma_split_whole(end, '.');
    lemma_split_not_empty(stem, seq!['.']);
    let parts = split_text(stem, seq!['.']);
    assert(after_last_dot(name) == Some(end)) by {
        let pieces = parts + seq![end];
        assert(pieces.last() == end);
        if pieces.len() == 2 {
            law_splitting_undoes_joining(stem, seq!['.']);
            assert(parts.len() == 1);
            assert(joined(parts, seq!['.']) == parts[0]);
        }
    }
    if name == ".."@ {
        assert(name[0] == '.' && name.len() == 2);
        assert(stem.len() == 1 && stem[0] == '.');
        assert(stem =~= "."@);
    }
    if end.len() == 0 && name == "."@ {
        assert(name.len() >= 2);
    }
    assert((outer + seq![name]).last() == name);
    assert(without_empty_end(outer + seq![name]) == outer + seq![name]);
    assert(without_empty_end(seq![name]) == seq![name]);
    if end.len() > 0 {
        assert((outer + seq![end]).last() == end);
        assert(end[0] != '.') by {
            if end[0] == '.' {
                assert(end.contains('.'));
            }
        }
        assert(without_empty_end(outer + seq![end]) == outer + seq![end]);
        assert(after_last_dot(end) is None);
        let hidden = seq!['.'] + end;
        assert((outer + seq![hidden]).last() == hidden);
        assert(hidden.len() >= 2 && hidden[1] == end[0]);
        assert(without_empty_end(outer + seq![hidden]) == outer + seq![hidden]);
        assert(!Seq::<char>::empty().contains('.'));
        lemma_split_first(Seq::empty(), '.', end);
        assert(Seq::<char>::empty() + seq!['.'] + end =~= hidden);
        assert(split_text(hidden, seq!['.']) =~= seq![Seq::<char>::empty(), end]);
        assert(after_last_dot(hidden) is None);
    }
    let empty = outer + seq![Seq::<char>::empty()];
    assert(empty.drop_last() =~= outer);
    assert(without_empty_end(empty) == without_empty_end(outer));
}

proof fn lemma_clean_joined(a: Seq<char>, b: Seq<char>, c: char)
    requires
        !a.contains(c),
        !b.contains(c),
    ensures
        !(a + b).contains(c),
{
    if (a + b).contains(c) {
        let k = (a + b).index_of(c);
        if k < a.len() {
            assert(a[k] == c);
        } else {
            assert(b[k - a.len()] == c);
        }
    }
}

/// A part of a text stands in it.
pub proof fn lemma_part_is_held(before: Seq<char>, part: Seq<char>, behind: Seq<char>)
    ensures
        stands_at(before + part + behind, part, before.len() as int),
        holds(before + part + behind, part),
{
    let all = before + part + behind;
    let at = before.len() as int;
    assert(all.subrange(at, at + part.len()) =~= part);
    assert(stands_at(all, part, at));
}

/// The end of a text stands in it, and so does all that stands in what comes before.
pub proof fn lemma_end_is_held(before: Seq<char>, a: Seq<char>, b: Seq<char>)
    ensures
        holds(before + a + b, a + b),
        forall|part: Seq<char>| #[trigger]
            holds(before, part) ==> holds(before + a + b, part),
{
    let all = before + a + b;
    let n = before.len() as int;
    assert(all.subrange(n, n + (a + b).len()) =~= a + b);
    assert(stands_at(all, a + b, n));
    assert forall|part: Seq<char>| #[trigger] holds(before, part) implies holds(all, part) by {
        let at = choose|at: int| stands_at(before, part, at);
        assert(all.subrange(at, at + part.len()) =~= before.subrange(at, at + part.len()));
        assert(stands_at(all, part, at));
    }
}

/// What comes last in a text stands in it, and so does all that stands in what comes before.
pub proof fn lemma_last_is_held(before: Seq<char>, last: Seq<char>)
    ensures
        holds(before + last, last),
        forall|part: Seq<char>| #[trigger] holds(before, part) ==> holds(before + last, part),
{
    let none = Seq::<char>::empty();
    lemma_end_is_held(before, none, last);
    assert(before + none + last =~= before + last);
    assert(none + last =~= last);
}

/// White space are the characters that Unicode calls so, by their numbers, and no others.
pub proof fn law_white_space(c: char)
    ensures
        ({
            let n = c as int;
            is_white_space(c) <==> 9 <= n <= 13 || n == 32 || n == 0x85 || n == 0xa0 || n == 0x1680
                || 0x2000 <= n <= 0x200a || n == 0x2028 || n == 0x2029 || n == 0x202f || n == 0x205f
                || n == 0x3000
        }),
{
}

/// A text is split from the left: its first part ends where the separator first stands, and what
/// follows is split by itself; where it stands nowhere, the text is one part.
pub proof fn law_splitting_goes_from_the_left(s: Seq<char>, separator: Seq<char>, i: int)
    requires
        separator.len() > 0,
    ensures
        stands_at(s, separator, i) && (forall|j: int| j < i ==> !stands_at(s, separator, j))
            ==> split_text(s, separator) == seq![s.take(i)] + split_text(
            s.skip(i + separator.len()),
            separator,
        ),
        !holds(s, separator) ==> split_text(s, separator) == seq![s],
{
    law_find_is_first(s, separator);
    if stands_at(s, separator, i) && (forall|j: int| j < i ==> !stands_at(s, separator, j)) {
        assert(holds(s, separator));
        let k = find(s, separator)->0;
        assert(!(k < i) && !(i < k));
    }
}

} // verus!

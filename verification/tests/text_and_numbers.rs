use bridge::number;
use bridge::text;
use bridge::text::Trim;

#[test]
fn white_space_is_what_std_takes_for_it() {
    for code in 0u32..=0x10ffff {
        if let Some(c) = char::from_u32(code) {
            let s = c.to_string();
            assert_eq!(text::trim(&s), s.trim(), "{:x}", code);
        }
    }
}

#[test]
fn trimming_agrees_with_std() {
    for s in ["", " a ", "\t\n x y \r\n", "\u{3000}z\u{a0}", "::a:b::", "mxc://mxc://a/b"] {
        assert_eq!(text::trim(s), s.trim());
        assert_eq!(text::trim_end(s, Trim::WhiteSpace), s.trim_end());
        assert_eq!(text::trim_start(s, Trim::Only(':')), s.trim_start_matches(':'));
        assert_eq!(text::trim_both(s, Trim::Only(':')), s.trim_matches(':'));
        assert_eq!(text::trim_start_text(s, "mxc://"), s.trim_start_matches("mxc://"));
    }
}

#[test]
fn splitting_and_searching_agree_with_std() {
    for s in ["", "/", "a/b/c", "//", "a||b||", "x=1&y=2", "no separator", "é/ü"] {
        for separator in ["/", "||", "&"] {
            let expected: Vec<String> = s.split(separator).map(String::from).collect();
            assert_eq!(text::split(s, separator), expected);
            assert_eq!(text::contains(s, separator), s.contains(separator));
            assert_eq!(text::replace(s, separator, "<>"), s.replace(separator, "<>"));
            let halves = s.split_once(separator).map(|(a, b)| (a.to_string(), b.to_string()));
            assert_eq!(text::split_once(s, separator), halves);
        }
    }
}

#[test]
fn lines_agree_with_std() {
    for s in ["", "\n", "a", "a\n", "a\r\nb\r\n", "\n\nx", "a\r", "one\ntwo\n\nthree"] {
        let expected: Vec<String> = s.lines().map(String::from).collect();
        assert_eq!(text::lines(s), expected, "{:?}", s);
    }
}

#[test]
fn extensions_agree_with_std() {
    for path in [
        "a.gif",
        "a.b.webp",
        "/x/y.JPG/",
        "https://cdn.discordapp.com/avatars/1/a.png?size=1024",
        ".hidden",
        ".hidden.txt",
        "..",
        "a/..",
        "a.png/.",
        "",
        "/",
        "name.",
        "none",
        "./a.b",
    ] {
        let expected = std::path::Path::new(path).extension().map(|e| e.to_str().unwrap().to_string());
        assert_eq!(text::extension(path), expected, "{}", path);
    }
}

#[test]
fn joining_puts_the_separator_between() {
    let parts = vec!["a".to_string(), "".to_string(), "c".to_string()];
    assert_eq!(text::join(&parts, " | "), "a |  | c");
    assert_eq!(text::join(&Vec::new(), " | "), "");
}

#[test]
fn numbers_are_written_as_std_writes_them() {
    for n in [0u64, 7, 10, 255, 65_535, 4_294_967_296, u64::MAX] {
        assert_eq!(number::to_decimal(n), n.to_string());
        assert_eq!(number::to_base(n, 16), format!("{n:x}"));
    }
    for n in [0i64, -1, 42, i64::MIN, i64::MAX] {
        assert_eq!(number::to_signed_decimal(n), n.to_string());
    }
    for n in [1u16, 12, 999, 1234, 65_535] {
        assert_eq!(number::to_four_digits(n), format!("{n:04}"));
    }
}

#[test]
fn numbers_are_read_as_std_reads_them() {
    for s in [
        "",
        "+",
        "0",
        "007",
        "+5",
        "-5",
        "12a",
        "18446744073709551615",
        "18446744073709551616",
        "99999999999999999999999",
        " 1",
    ] {
        assert_eq!(number::parse_u64(s), s.parse::<u64>().ok(), "{}", s);
        assert_eq!(number::parse_usize(s), s.parse::<usize>().ok(), "{}", s);
    }
}

#[test]
fn a_decimal_number_reads_back() {
    for n in [0u64, 1, 90, 1_000_000_007, u64::MAX] {
        assert_eq!(number::parse_u64(&number::to_decimal(n)), Some(n));
    }
}

#[test]
fn widths_are_those_of_utf8() {
    for c in ['a', 'é', '…', '🎉'] {
        assert_eq!(number::char_width(c), c.len_utf8());
    }
    assert_eq!(number::byte_len("aé…🎉"), 10);
}

use claude_tools::clock::{
    moment_at, whole_days, whole_minutes, whole_seconds, year_month, Moment, FIRST_SECOND,
    LAST_SECOND,
};
use claude_tools::json::{
    array, count, get, get_str, lay_out, number, parse, quote_or_null, show_bool, string, Json,
};
use claude_tools::letters::mentions_phrase;
use claude_tools::lists::{copy, find, lists, put, sort, sort_set};
use claude_tools::package::{name_in, title_in, NAME};
use claude_tools::paths;
use claude_tools::text;

fn texts(v: &[&str]) -> Vec<String> {
    v.iter().map(|s| s.to_string()).collect()
}

#[test]
fn white_space_is_that_of_the_language() {
    for n in 0..=0x10ffffu32 {
        if let Some(c) = char::from_u32(n) {
            assert_eq!(text::is_white(c), c.is_whitespace(), "{n:x}");
        }
    }
}

#[test]
fn lower_case_ascii_comes_from_these_letters_only() {
    // What a search for an ASCII phrase rests on: which letters have ASCII in
    // their lower case.
    for n in 0..=0x10ffffu32 {
        if let Some(c) = char::from_u32(n) {
            let low: Vec<char> = c.to_lowercase().collect();
            if c.is_ascii() {
                assert_eq!(low, [c.to_ascii_lowercase()]);
            } else if n == 0x212a {
                assert_eq!(low, ['k']);
            } else if n == 0x130 {
                assert_eq!(low, ['i', '\u{307}']);
            } else {
                assert!(low.iter().all(|l| !l.is_ascii()), "{n:x}");
            }
        }
    }
    assert!(mentions_phrase("the \u{212a}EY", "key"));
    assert!(mentions_phrase("\u{130}x", "i"));
    assert!(!mentions_phrase("\u{130}x", "ix"));
    assert!(!mentions_phrase("KE", "key"));
}

#[test]
fn texts_are_taken_apart_as_the_language_does() {
    for s in ["", "a", "a\n", "\na\r\nb\r", " a  b\u{2003}c ", "x\n\ny", "\r\n", "é|中|", "a\r"] {
        assert_eq!(text::lines(s), s.lines().map(str::to_string).collect::<Vec<_>>());
        assert_eq!(text::words(s), s.split_whitespace().map(str::to_string).collect::<Vec<_>>());
        assert_eq!(text::split(s, '|'), s.split('|').map(str::to_string).collect::<Vec<_>>());
        assert_eq!(text::trim(s), s.trim());
        assert_eq!(text::trim_end(s), s.trim_end());
        assert_eq!(text::is_blank(s), s.trim().is_empty());
        assert_eq!(text::size(s), s.len());
        for n in 0..s.len() + 2 {
            let cut = s.len().min(n);
            assert_eq!(text::can_cut(s, n), s.is_char_boundary(cut));
            if s.is_char_boundary(cut) {
                assert_eq!(text::byte_head(s, n), &s[..cut]);
            }
            for m in n..s.len() + 2 {
                assert_eq!(text::byte_slice(s, n, m).as_deref(), s.get(n..m));
            }
        }
    }
}

#[test]
fn texts_are_searched() {
    assert!(text::same("é", "é"));
    assert!(!text::same("e", "é"));
    assert!(text::contains("abc", "bc") && text::contains("abc", "") && !text::contains("abc", "cb"));
    assert!(text::starts_with("abc", "ab") && !text::starts_with("abc", "b"));
    assert!(text::ends_with("abc", "bc") && !text::ends_with("bc", "abc"));
    assert!(text::contains_char("aé", 'é'));
    assert!(text::is_before("a", "b") && text::is_before("a", "ab") && !text::is_before("b", "ab"));
    for (a, b) in [("é", "z"), ("\u{ffff}", "\u{10000}"), ("a", "A"), ("", "a"), ("x", "x")] {
        assert_eq!(text::is_before(a, b), a < b);
        assert_eq!(text::is_before(b, a), b < a);
    }
    assert_eq!(text::count_before("aé", 3), Some(2));
    assert_eq!(text::count_before("aé", 2), None);
    assert_eq!(text::char_size('😀'), 4);
    assert_eq!(text::to_ascii_lower("AbÉ"), "abÉ");
    let v = text::chars_of("abc");
    assert_eq!(text::string_of(&v, 1, 3), "bc");
    assert!(text::matches_at(&v, 1, &text::chars_of("bc")));
}

#[test]
fn texts_are_put_together() {
    assert_eq!(text::join(&texts(&["a", "", "b"]), ", "), "a, , b");
    assert_eq!(text::join(&Vec::new(), ", "), "");
    assert_eq!(text::replace_char("a|b|", '|', "\\|"), "a\\|b\\|");
    assert_eq!(text::take_chars("éab", 2), "éa");
    assert_eq!(text::blanks(3), "   ");
    assert_eq!(text::align_left("é", 3), format!("{:<3}", "é"));
    assert_eq!(text::align_right("ok", 4), format!("{:>4}", "ok"));
    assert_eq!(text::align_left("long", 2), "long");
}

#[test]
fn numbers_are_shown_and_read() {
    for n in [0u64, 9, 10, 12345, u64::MAX] {
        assert_eq!(text::show_u64(n), n.to_string());
        assert_eq!(text::parse_u64(&n.to_string()), Some(n));
        assert_eq!(text::show_hex(n, 16), format!("{n:016x}"));
        assert_eq!(text::show_hex(n, 2), format!("{:02x}", n & 0xff));
    }
    assert_eq!(text::show_usize(7), "7");
    for n in [0i64, -1, i64::MIN, i64::MAX] {
        assert_eq!(text::show_i64(n), n.to_string());
    }
    for s in ["", "+", "-1", "+5", "1 ", "٣", "18446744073709551616", "00018446744073709551615", "1a"] {
        assert_eq!(text::parse_u64(s), s.parse::<u64>().ok(), "{s}");
    }
    assert_eq!(text::digit_char(7), '7');
    assert_eq!(text::hex_char(11), 'b');
}

#[test]
fn lists_are_kept() {
    let v = texts(&["b", "a", "b"]);
    assert!(lists(&v, "a") && !lists(&v, "c"));
    assert_eq!(copy(&v), v);
    assert_eq!(sort(&v), ["a", "b", "b"]);
    assert_eq!(sort_set(&v), ["a", "b"]);
    let mut w = texts(&["a", "c"]);
    put(&mut w, "b".to_string());
    put(&mut w, "b".to_string());
    assert_eq!(w, ["a", "b", "c"]);
    let pairs = vec![("a".to_string(), "1".to_string()), ("a".to_string(), "2".to_string())];
    assert_eq!(find(&pairs, "a").unwrap(), "1");
    assert!(find(&pairs, "b").is_none());
}

#[test]
fn paths_are_joined() {
    for (dir, name) in [("/a", "b"), ("/a/", "b"), ("/a", "/b"), ("", "b"), ("/a", ""), ("a/", "")] {
        assert_eq!(paths::join(dir, name), std::path::Path::new(dir).join(name).to_str().unwrap());
    }
    for name in ["a.json", "a.b.json", ".json", "a", "a.", "..", ".a.json"] {
        let p = std::path::Path::new(name);
        if let Some(stem) = p.file_stem() {
            assert_eq!(paths::file_stem(name), stem.to_str().unwrap(), "{name}");
        }
        assert_eq!(
            paths::has_ext(name, "json"),
            p.extension().and_then(|e| e.to_str()) == Some("json"),
            "{name}"
        );
    }
}

#[test]
fn json_texts() {
    for s in ["", "a\"b\\c", "\n\r\t\u{8}\u{c}", "\u{1}\u{1f}\u{7f}", "é中😀/<>&", "\u{2028}"] {
        assert_eq!(quote_or_null(Some(s)), serde_json::to_string(s).unwrap());
    }
    assert_eq!(quote_or_null(None), "null");
    assert_eq!(quote_or_null(Some("x")), "\"x\"");
    assert_eq!(array(&texts(&["1", "2"])), "[1,2]");
    assert_eq!(array(&Vec::new()), "[]");
    assert_eq!(show_bool(true), "true");
}

#[test]
fn json_is_read() {
    assert!(parse("{").is_none());
    assert!(parse("").is_none());
    let j = parse(r#" {"b":[1,-2.5,true,null],"a":{"x":"é"},"b2":12345678901234567890,"a":"last"} "#).unwrap();
    assert_eq!(get_str(&j, "a").unwrap(), "last");
    assert!(get_str(&j, "b").is_none());
    assert!(get(&j, "none").is_none());
    assert!(get(&Json::Null, "a").is_none());
    match get(&j, "b").unwrap() {
        Json::Array(v) => {
            assert_eq!(v.len(), 4);
            assert!(matches!(&v[0], Json::Number(n) if n == "1"));
            assert!(matches!(&v[1], Json::Number(n) if n == "-2.5"));
            assert!(matches!(v[2], Json::Bool(true)));
            assert!(matches!(v[3], Json::Null));
        }
        _ => panic!("no array"),
    }
    // The members of an object come in the order of their names.
    match &j {
        Json::Object(v) => {
            let names: Vec<&str> = v.iter().map(|m| m.0.as_str()).collect();
            assert_eq!(names, ["a", "b", "b2"]);
        }
        _ => panic!("no object"),
    }
}

fn moment(t: chrono::DateTime<chrono::Utc>) -> Moment {
    Moment { secs: t.timestamp(), nanos: t.timestamp_subsec_nanos() }
}

#[test]
fn time_spans_are_whole() {
    let a = chrono::DateTime::from_timestamp(1_000_000, 900_000_000).unwrap();
    for (secs, nanos) in [(0i64, 0u32), (-90_000, 100_000_000), (90_061, 950_000_000), (3_599, 1)] {
        let b = chrono::DateTime::from_timestamp(1_000_000 + secs, nanos).unwrap();
        let d = b - a;
        assert_eq!(whole_seconds(moment(b), moment(a)), d.num_seconds());
        assert_eq!(whole_minutes(moment(b), moment(a)), d.num_minutes());
        assert_eq!(whole_days(moment(b), moment(a)), d.num_days());
    }
    assert!(moment_at(i64::MAX).is_none());
    assert!(moment_at(i64::MIN).is_none());
    for secs in [-8_334_601_228_801i64, -8_334_601_228_800, 8_210_266_876_799, 8_210_266_876_800, 0] {
        assert_eq!(moment_at(secs).is_some(), chrono::DateTime::from_timestamp(secs, 0).is_some(), "{secs}");
    }
}

#[test]
fn tools_are_named_after_the_package() {
    let first = NAME.split('_').next().unwrap();
    assert_eq!(first.len(), 6);
    assert_eq!(name_in("<", "-x>"), format!("<{first}-x>"));
    assert_eq!(title_in("<", ">"), format!("<C{}>", &first[1..]));
}

#[test]
fn months_are_those_of_the_calendar() {
    assert_eq!(year_month(0), "197001");
    assert_eq!(year_month(-1), "196912");
    // The last second of a leap day, and the first behind it.
    assert_eq!(year_month(951_868_799), "200002");
    assert_eq!(year_month(951_868_800), "200003");
    assert_eq!(year_month(4_107_542_399), "210002");
    assert_eq!(year_month(4_107_542_400), "210003");
    assert_eq!(year_month(253_402_300_799), "999912");
    for secs in [
        FIRST_SECOND,
        LAST_SECOND,
        253_402_300_800,
        -62_135_596_800,
        -62_135_596_801,
        -62_167_219_200,
        -62_167_219_201,
        1_700_000_000,
        -2_208_988_800,
    ] {
        let expected = chrono::DateTime::from_timestamp(secs, 0).unwrap();
        assert_eq!(year_month(secs), expected.format("%Y%m").to_string(), "{secs}");
    }
}

#[test]
fn documents_are_laid_out() {
    // Each is written in the layout of the outside crate, and read back as it was.
    for raw in [
        "{}",
        "[]",
        "null",
        "true",
        "17",
        "18446744073709551615",
        r#""a\"b\\c\n\u0001\u007f€""#,
        r#"[1,[],{},[2,[3]]]"#,
        r#"{"a":[{"b":null,"c":false},"x"],"d":{"e":{"f":[0]}},"é":"ü"}"#,
    ] {
        let value: serde_json::Value = serde_json::from_str(raw).unwrap();
        let document = parse(raw).unwrap();
        let laid = lay_out(&document);
        assert_eq!(laid, serde_json::to_string_pretty(&value).unwrap());
        let again = parse(&format!("{laid}\n")).unwrap();
        assert_eq!(lay_out(&again), laid);
    }
    // A hundred levels, one in the other.
    let deep = format!("{}{}", "[".repeat(100), "]".repeat(100));
    let laid = lay_out(&parse(&deep).unwrap());
    assert_eq!(lay_out(&parse(&format!("{laid}\n")).unwrap()), laid);
    assert_eq!(lay_out(&string("a\"b")), r#""a\"b""#);
    assert_eq!(lay_out(&number(u64::MAX)), "18446744073709551615");
    assert_eq!(lay_out(&count(7)), "7");
    assert_eq!(lay_out(&parse("-9223372036854775808").unwrap()), "-9223372036854775808");
    assert_eq!(lay_out(&parse("[-1,0]\n").unwrap()), "[\n  -1,\n  0\n]");
    assert_eq!(lay_out(&Json::Array(vec![Json::Bool(true)])), "[\n  true\n]");
}

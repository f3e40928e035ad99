use rp_agent::markdown::{escape, escape_attr};
use rp_agent::number::{dec_signed, dec_unsigned, parse_i64};
use rp_agent::paths::{last_segment, path_extension, path_join};
use rp_agent::search::{contains, count_matches, joined, replaced_all, replaced_first, split_lines, starts_with};
use rp_agent::text::{char_width, is_white, split_words, str_eq, text_size, trimmed, trimmed_end};
use rp_agent::unicode::{is_alphanumeric, to_ascii_lowercase, to_lowercase};

fn all_chars() -> impl Iterator<Item = char> {
    (0u32..=0x10ffff).filter_map(char::from_u32)
}

#[test]
fn character_classes_agree_with_std() {
    for c in all_chars() {
        assert_eq!(is_white(c), c.is_whitespace(), "{c:?}");
        assert_eq!(is_alphanumeric(c), c.is_alphanumeric(), "{c:?}");
        assert_eq!(char_width(c), c.len_utf8(), "{c:?}");
    }
}

#[test]
fn case_agrees_with_std() {
    for s in ["ABC", "Чат", "ΑΣ", "İ", "ß", "mixed Ы", ""] {
        assert_eq!(to_lowercase(s), s.to_lowercase());
        assert_eq!(to_ascii_lowercase(s), s.to_ascii_lowercase());
    }
}

#[test]
fn trimming_agrees_with_std() {
    for s in ["", " ", " a ", "\u{a0}x\u{3000}", "a b", "\n\t"] {
        assert_eq!(trimmed(s), s.trim());
        assert_eq!(trimmed_end(s), s.trim_end());
        assert_eq!(split_words(s), s.split_whitespace().collect::<Vec<_>>());
        assert_eq!(text_size(s), s.len());
    }
    assert!(str_eq("ы", "ы") && !str_eq("ы", "и"));
}

#[test]
fn searching_agrees_with_std() {
    for (s, p) in [("aaaa", "aa"), ("", ""), ("abc", ""), ("abab", "ab"), ("x", "xy"), ("ыыы", "ы")] {
        assert_eq!(contains(s, p), s.contains(p));
        assert_eq!(starts_with(s, p), s.starts_with(p));
        assert_eq!(count_matches(s, p), s.matches(p).count() as u128);
        assert_eq!(replaced_all(s, p, "-"), s.replace(p, "-"));
        assert_eq!(replaced_first(s, p, "-"), s.replacen(p, "-", 1));
    }
}

#[test]
fn lines_agree_with_std() {
    for s in ["", "a", "a\n", "a\r\nb", "\n\n", "a\r", "a\n\rb\r\n"] {
        let v: Vec<char> = s.chars().collect();
        let got: Vec<String> = split_lines(&v).into_iter().map(|l| l.into_iter().collect()).collect();
        assert_eq!(got, s.lines().collect::<Vec<_>>(), "{s:?}");
    }
    assert_eq!(joined(&vec!["a".into(), "b".into(), "c".into()], ", "), "a, b, c");
}

#[test]
fn numbers_agree_with_std() {
    for n in [0, 7, 10, -10, i64::MAX, i64::MIN] {
        assert_eq!(dec_signed(n), n.to_string());
        assert_eq!(parse_i64(&n.to_string()), Some(n));
    }
    assert_eq!(dec_unsigned(u128::MAX), u128::MAX.to_string());
    for s in ["", "-", "+", "+5", "-0", "9223372036854775808", "-9223372036854775809", "1 ", "1a", "٣"] {
        assert_eq!(parse_i64(s), s.parse().ok(), "{s:?}");
    }
}

#[test]
fn paths_agree_with_std() {
    let all = ["", ".", "..", "/", "a", "a/", "/a", "a.b", ".b", "a.b.c", "a/.", "a.x/..", "a.x/./", "./", "a..", "//"];
    for a in all {
        let ext = std::path::Path::new(a).extension().map(|e| e.to_str().unwrap().to_string());
        assert_eq!(path_extension(a), ext, "{a:?}");
        for b in all {
            let std_join = std::path::Path::new(a).join(b);
            assert_eq!(path_join(a, b), std_join.to_str().unwrap(), "{a:?} {b:?}");
        }
        assert_eq!(last_segment(a), a.rsplit('/').next().unwrap());
    }
}

#[test]
fn escaping_covers_markup() {
    assert_eq!(escape("a < b && c > \"d\""), "a &lt; b &amp;&amp; c &gt; \"d\"");
    assert_eq!(escape_attr("a\"b&"), "a&quot;b&amp;");
}

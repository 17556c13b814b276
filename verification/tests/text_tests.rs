use picker_hook::text::{
    chars_of, contains_str, lines, nonempty_lines, split, to_wide_nul, tray_tip, trim,
    trimmed_lines, white_space, yaml_escape,
};

fn unescape(q: &str) -> String {
    let inner = &q[1..q.len() - 1];
    inner.replace("''", "'")
}

#[test]
fn yaml_escape_doubles_quotes() {
    assert_eq!(yaml_escape("it's"), "'it''s'");
    assert_eq!(yaml_escape(""), "''");
    assert_eq!(yaml_escape("plain"), "'plain'");
    assert_eq!(yaml_escape("''"), "''''''");
    assert_eq!(yaml_escape("C:\\Users\\Bob's files"), "'C:\\Users\\Bob''s files'");
}

#[test]
fn yaml_escape_round_trips() {
    for s in ["", "a", "'", "a'b''c'", "ünïcödé '", "x y\tz"] {
        assert_eq!(unescape(&yaml_escape(s)), s);
    }
    assert_ne!(yaml_escape("a'"), yaml_escape("a''"));
}

#[test]
fn white_space_is_unicode_white_space() {
    for v in 0u32..0x110000 {
        if let Some(c) = char::from_u32(v) {
            assert_eq!(white_space(c), c.is_whitespace(), "char {:x}", v);
        }
    }
}

#[test]
fn trim_matches_str_trim() {
    for s in ["", "   ", " a ", "\t a b \r\n", "\u{3000}x\u{2028}", "a", "\u{85}\u{a0}y z\u{205f}"] {
        assert_eq!(trim(s), s.trim());
    }
}

#[test]
fn split_matches_str_split() {
    for s in ["", ";", "a;;b", "*.txt;*.md", ";x;"] {
        let expected: Vec<String> = s.split(';').map(String::from).collect();
        assert_eq!(split(s, ';'), expected);
    }
    assert_eq!(split("a;;b", ';'), vec!["a", "", "b"]);
}

#[test]
fn lines_match_str_lines() {
    for s in ["", "a", "a\n", "a\r\nb\n", "a\rb", "x\r", "\n\n", "a\n\r\nb", "\r\n"] {
        let expected: Vec<String> = s.lines().map(String::from).collect();
        assert_eq!(lines(s), expected, "input {:?}", s);
        let nonempty: Vec<String> = s.lines().filter(|l| !l.is_empty()).map(String::from).collect();
        assert_eq!(nonempty_lines(s), nonempty, "input {:?}", s);
    }
}

#[test]
fn trimmed_lines_drop_blank_lines() {
    assert_eq!(trimmed_lines("  C:\\a.txt \r\n\r\n   \n b\n"), vec!["C:\\a.txt", "b"]);
    assert!(trimmed_lines("").is_empty());
}

#[test]
fn contains_str_finds_substrings() {
    assert!(contains_str("c:\\program files\\everything\\es.exe", "everything"));
    assert!(!contains_str("c:\\tools\\es.exe", "everything"));
    assert!(contains_str("abc", ""));
    assert!(contains_str("abc", "abc"));
    assert!(!contains_str("ab", "abc"));
    assert!(contains_str("aab", "ab"));
}

#[test]
fn chars_of_lists_characters() {
    assert_eq!(chars_of("aé😀"), vec!['a', 'é', '😀']);
}

#[test]
fn to_wide_nul_encodes_utf16_with_terminator() {
    let s = "héllo😀";
    let mut expected: Vec<u16> = s.encode_utf16().collect();
    expected.push(0);
    assert_eq!(to_wide_nul(s), expected);
    assert_eq!(to_wide_nul(""), vec![0]);
    assert_eq!(to_wide_nul("😀"), vec![0xD83D, 0xDE00, 0]);
}

#[test]
fn wide_string_has_single_terminator() {
    let w = to_wide_nul("C:\\Users\\ünï\\𝄞.txt");
    assert_eq!(*w.last().unwrap(), 0);
    assert!(w[..w.len() - 1].iter().all(|&u| u != 0));
}

#[test]
fn tray_tip_fills_128_units() {
    let tip = tray_tip("fzt picker");
    assert_eq!(tip.len(), 128);
    let expected: Vec<u16> = "fzt picker".encode_utf16().collect();
    assert_eq!(&tip[..10], &expected[..]);
    assert!(tip[10..].iter().all(|&u| u == 0));

    let long = "x".repeat(200);
    let tip = tray_tip(&long);
    assert_eq!(tip.len(), 128);
    assert!(tip[..127].iter().all(|&u| u == 'x' as u16));
    assert_eq!(tip[127], 0);
}

use gitswitch::text::{is_whitespace, join_lines, split_lines, trim};

fn strings(items: &[&str]) -> Vec<String> {
    items.iter().map(|s| s.to_string()).collect()
}

#[test]
fn whitespace_is_the_unicode_property() {
    for n in 0..=0x10FFFFu32 {
        if let Some(c) = char::from_u32(n) {
            assert_eq!(is_whitespace(c), c.is_whitespace(), "U+{:04X}", n);
        }
    }
}

#[test]
fn trim_removes_surrounding_whitespace_only() {
    assert_eq!(trim("  hello \t\n"), "hello");
    assert_eq!(trim("a b  c"), "a b  c");
    assert_eq!(trim("\u{3000}x y\u{00A0}"), "x y");
    assert_eq!(trim("   "), "");
    assert_eq!(trim(""), "");
    assert_eq!(trim("x"), "x");
    assert_eq!(trim("\r\nHost github.com\r\n"), "Host github.com");
}

#[test]
fn trim_agrees_with_std() {
    let samples = [
        "",
        " ",
        "a",
        " a",
        "a ",
        "  a  b  ",
        "\t\u{2003}IdentityFile ~/.ssh/id\u{2028}",
        "\u{0085}\u{1680}\u{202F}\u{205F}z\u{200A}\u{2000}",
        "\u{200B}zero width is no space\u{200B}",
        "é \u{FEFF}",
    ];
    for s in samples {
        assert_eq!(trim(s), s.trim(), "{:?}", s);
    }
}

#[test]
fn split_lines_examples() {
    assert_eq!(split_lines(""), Vec::<String>::new());
    assert_eq!(split_lines("a"), strings(&["a"]));
    assert_eq!(split_lines("a\n"), strings(&["a"]));
    assert_eq!(split_lines("a\nb"), strings(&["a", "b"]));
    assert_eq!(split_lines("a\n\n"), strings(&["a", ""]));
    assert_eq!(split_lines("\n"), strings(&[""]));
    assert_eq!(split_lines("a\r\nb\r\n"), strings(&["a", "b"]));
    assert_eq!(split_lines("a\r"), strings(&["a\r"]));
    assert_eq!(split_lines("a\r\r\nb"), strings(&["a\r", "b"]));
    assert_eq!(split_lines("a\rb\nc"), strings(&["a\rb", "c"]));
}

#[test]
fn split_lines_agrees_with_std() {
    let samples = [
        "",
        "\n",
        "\r\n",
        "\r",
        "\n\n\n",
        "one",
        "one\n",
        "one\r\n",
        "one\ntwo",
        "one\r\ntwo\r\n\r\nthree",
        "a\r\r\n\r\rb\r",
        "Host github.com\n    IdentityFile ~/.ssh/id\n\nHost other\n",
        "ünï\ncödé\r\n",
    ];
    for s in samples {
        let expected: Vec<String> = s.lines().map(|l| l.to_string()).collect();
        assert_eq!(split_lines(s), expected, "{:?}", s);
    }
}

#[test]
fn join_lines_examples() {
    assert_eq!(join_lines(&strings(&[])), "");
    assert_eq!(join_lines(&strings(&["a"])), "a");
    assert_eq!(join_lines(&strings(&["a", "b"])), "a\nb");
    assert_eq!(join_lines(&strings(&["a", "", "b", ""])), "a\n\nb\n");
    assert_eq!(join_lines(&strings(&[""])), "");
    assert_eq!(join_lines(&strings(&["", ""])), "\n");
}

#[test]
fn join_lines_agrees_with_std() {
    let samples: [&[&str]; 5] = [&[], &[""], &["x"], &["x", "y", "z"], &["", "a", "", ""]];
    for lines in samples {
        assert_eq!(join_lines(&strings(lines)), lines.join("\n"), "{:?}", lines);
    }
}

#[test]
fn lines_read_back_as_written() {
    let lines = strings(&["Host a", "    User x", "", "Host b"]);
    assert_eq!(split_lines(&join_lines(&lines)), lines);
}

#[test]
fn a_last_empty_line_does_not_read_back() {
    let lines = strings(&["Host a", ""]);
    assert_eq!(join_lines(&lines), "Host a\n");
    assert_eq!(split_lines("Host a\n"), strings(&["Host a"]));
}

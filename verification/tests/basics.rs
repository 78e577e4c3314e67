use migux::{config, number, server_core, text};

#[test]
fn it_works() {
    let result = config::add(2, 2);
    assert_eq!(result, 4);
}

#[test]
fn lib_it_works() {
    let result = server_core::add(2, 2);
    assert_eq!(result, 4);
}

#[test]
fn numbers_read_back() {
    for n in [0u64, 7, 10, 65535, u64::MAX] {
        let written = number::decimal_string(n);
        assert_eq!(written, n.to_string());
        assert_eq!(number::parse_u64(&text::chars_of(&written)), Some(n));
    }
}

#[test]
fn numbers_out_of_range_are_refused() {
    assert_eq!(number::parse_u64(&text::chars_of("18446744073709551616")), None);
    assert_eq!(number::parse_u64(&text::chars_of("")), None);
    assert_eq!(number::parse_u64(&text::chars_of("-1")), None);
    assert_eq!(number::parse_u64(&text::chars_of("+5")), Some(5));
    assert_eq!(number::parse_hex_usize(&text::chars_of("1aF")), Some(0x1af));
    assert_eq!(number::parse_hex_usize(&text::chars_of("g")), None);
}

#[test]
fn lines_are_split_like_std_does() {
    for s in ["", "a", "a\r\nb", "a\n", "a\n\nb\r\n", "\r\n", "a\rb\nc"] {
        let chars = text::chars_of(s);
        let ours: Vec<String> = text::split_lines(&chars)
            .iter()
            .map(|l| text::string_of(l))
            .collect();
        let std: Vec<String> = s.lines().map(|l| l.to_string()).collect();
        assert_eq!(ours, std, "{s:?}");
    }
}

#[test]
fn words_are_split_like_std_does() {
    for s in ["", "  ", "GET / HTTP/1.1", " a\tb \u{2003}c\u{85}d "] {
        let chars = text::chars_of(s);
        let ours: Vec<String> = text::split_words(&chars)
            .iter()
            .map(|l| text::string_of(l))
            .collect();
        let std: Vec<String> = s.split_whitespace().map(|l| l.to_string()).collect();
        assert_eq!(ours, std, "{s:?}");
    }
}

#[test]
fn text_is_trimmed_like_std_does() {
    for s in ["", " ", "  a b ", "\u{3000}x\u{a0}", "\t\r\n y"] {
        let chars = text::chars_of(s);
        assert_eq!(text::string_of(text::trim(&chars)), s.trim());
    }
}

#[test]
fn lower_case_touches_ascii_only() {
    let chars = text::chars_of("ABC\u{c9}xyz");
    assert_eq!(text::string_of(&text::to_lower(&chars)), "ABC\u{c9}xyz".to_ascii_lowercase());
}

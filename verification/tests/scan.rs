use rproxy::decimal::decimal_string;
use rproxy::scan::{cut_text, find};
use rproxy::static_file_server::{Config, StaticFileServer};

#[test]
fn find_gives_the_first_occurrence() {
    assert_eq!(find(b"a\r\nb\r\n", b"\r\n"), Some(1));
    assert_eq!(find(b"\r\r\n", b"\r\n"), Some(1));
    assert_eq!(find(b"abc", b"abc"), Some(0));
    assert_eq!(find(b"aab", b"ab"), Some(1));
    assert_eq!(find(b"abc", b"c"), Some(2));
}

#[test]
fn find_gives_nothing_where_the_pattern_is_absent() {
    assert_eq!(find(b"", b"x"), None);
    assert_eq!(find(b"ab", b"abc"), None);
    assert_eq!(find(b"a\rb\n", b"\r\n"), None);
}

#[test]
fn cut_text_parts_at_the_first_occurrence() {
    assert_eq!(cut_text("name: value: more", b": "), Some(("name", "value: more")));
    assert_eq!(cut_text(": ", b": "), Some(("", "")));
    assert_eq!(cut_text("a b", b" "), Some(("a", "b")));
    assert_eq!(cut_text("no mark", b": "), None);
    assert_eq!(cut_text("gr\u{fc}\u{df}: \u{1f600}!", b": "), Some(("gr\u{fc}\u{df}", "\u{1f600}!")));
}

#[test]
fn decimal_string_writes_numbers() {
    assert_eq!(decimal_string(0), "0");
    assert_eq!(decimal_string(7), "7");
    assert_eq!(decimal_string(10), "10");
    assert_eq!(decimal_string(1024), "1024");
    assert_eq!(decimal_string(9876543210), "9876543210");
    assert_eq!(decimal_string(usize::MAX), usize::MAX.to_string());
}

#[test]
fn static_file_server_keeps_its_directory() {
    let settings = Config { enabled: true, path: "public".to_string() };
    assert!(settings.enabled);
    let server = StaticFileServer::new(settings.path);
    assert_eq!(server.files(), "public");
}

use password_mover::{config_text, parse_config};

fn pair(p: &str, d: &str) -> Option<(String, String)> {
    Some((p.to_string(), d.to_string()))
}

#[test]
fn written_config_has_two_key_lines() {
    let text = config_text("/home/me/docs", "/home/me/vault");
    assert_eq!(text, "Path=\"/home/me/docs\"\nDestPath=\"/home/me/vault\"\n");
    assert_eq!(text.lines().count(), 2);
}

#[test]
fn written_config_reads_back() {
    let text = config_text("C:\\Users\\me", "D:\\safe place");
    assert_eq!(parse_config(&text), pair("C:\\Users\\me", "D:\\safe place"));
    let quoted = config_text("\"a\"", "b\"");
    assert_eq!(parse_config(&quoted), pair("\"a\"", "b\""));
}

#[test]
fn keys_in_any_order() {
    assert_eq!(parse_config("DestPath=\"/b\"\nPath=\"/a\""), pair("/a", "/b"));
}

#[test]
fn missing_key_gives_none() {
    assert_eq!(parse_config("Path=\"/a\"\n"), None);
    assert_eq!(parse_config("DestPath=\"/b\"\n"), None);
    assert_eq!(parse_config(""), None);
    assert_eq!(parse_config("path=\"/a\"\ndestpath=\"/b\"\n"), None);
}

#[test]
fn last_line_of_a_key_wins() {
    assert_eq!(
        parse_config("Path=\"/a\"\nDestPath=\"/b\"\nPath=\"/c\"\n"),
        pair("/c", "/b")
    );
}

#[test]
fn one_layer_of_quotes_is_dropped() {
    assert_eq!(parse_config("Path=\"\"a\"\"\nDestPath=b"), pair("\"a\"", "b"));
    assert_eq!(parse_config("Path=\"\"/a\"b\"\"\nDestPath=/d"), pair("\"/a\"b\"", "/d"));
    assert_eq!(parse_config("Path=\"/a\nDestPath=/b\""), pair("/a", "/b"));
}

#[test]
fn empty_paths_give_none() {
    assert_eq!(parse_config(&config_text("", "")), None);
    assert_eq!(parse_config("Path=\"\"\nDestPath=\"/b\"\n"), None);
    assert_eq!(parse_config("Path=/a\nDestPath=\""), None);
    assert_eq!(parse_config("Path=/a\nDestPath=\n"), None);
}

#[test]
fn carriage_returns_before_newline_are_dropped() {
    assert_eq!(parse_config("Path=\"/a\"\r\nDestPath=\"/b\"\r\n"), pair("/a", "/b"));
    assert_eq!(parse_config("Path=/a\r\nDestPath=/b\r"), pair("/a", "/b\r"));
}

#[test]
fn other_lines_are_ignored() {
    assert_eq!(
        parse_config("# settings\n\n Path=\"/x\"\nPath=/a\nDestPath=/b\nextra"),
        pair("/a", "/b")
    );
}

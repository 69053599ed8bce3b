use melon_player::login::{handle_connection, login_redirect_ok, parse_login_redirect, split_str, Connection};

#[test]
fn split_keeps_empty_pieces() {
    assert_eq!(split_str("a,,b", ','), vec!["a", "", "b"]);
    assert_eq!(split_str("", ','), vec![""]);
    assert_eq!(split_str(",", ','), vec!["", ""]);
    assert_eq!(split_str("abc", ','), vec!["abc"]);
}

#[test]
fn login_redirect_values() {
    let url = "myapp://login?token=abc&sessionId=s1&memberKey=m9";
    assert!(login_redirect_ok(url));
    let info = parse_login_redirect(url);
    assert_eq!(info.token, "abc");
    assert_eq!(info.session_id, "s1");
    assert_eq!(info.member_key, "m9");

    let twice = "x?token=a&token=b&other=1=2";
    let info = parse_login_redirect(twice);
    assert_eq!(info.token, "b");
    assert_eq!(info.session_id, "");

    let info = parse_login_redirect("no query here");
    assert_eq!(info.token, "");
    assert_eq!(info.member_key, "");

    assert!(!login_redirect_ok("x?token"));
    assert!(!login_redirect_ok("x?a=1&"));
    assert!(login_redirect_ok("x?a=1?b"));
}

fn request(text: &str) -> Vec<u8> {
    let mut buffer = vec![0u8; 4048];
    buffer[..text.len()].copy_from_slice(text.as_bytes());
    buffer
}

const SCRIPT_LOCAL: &str =
    "<script>fetch(\"http://localhost:12345/cb\",{headers:{\"Full-Url\":window.location.href}})</script>";

#[test]
fn exit_request() {
    let c = handle_connection(&request("GET /exit HTTP/1.1\r\nHost: localhost\r\n\r\n"), None, 12345);
    assert!(matches!(c, Connection::Exit));
}

#[test]
fn redirect_request() {
    let c = handle_connection(
        &request("GET /cb HTTP/1.1\r\nHost: localhost\r\nFull-Url: myapp://x?token=1\r\n\r\n"),
        None,
        12345,
    );
    assert!(matches!(c, Connection::Redirect(u) if u == "myapp://x?token=1"));
}

#[test]
fn page_requests() {
    let c = handle_connection(&request("GET / HTTP/1.1\r\nHost: localhost:12345\r\n\r\n"), None, 12345);
    let expected = format!(
        "<html><head>{}</head><body>Please return to the app.</body></html>",
        SCRIPT_LOCAL
    );
    assert!(matches!(c, Connection::Reply(ref r) if *r == expected));

    let c = handle_connection(&request("GET / HTTP/1.1\r\nHost: 127.0.0.1:80\r\n\r\n"), None, 80);
    assert!(matches!(c, Connection::Reply(ref r) if r.contains("http://127.0.0.1:80/cb")));

    let c = handle_connection(
        &request("GET / HTTP/1.1\r\nHost: localhost\r\n\r\n"),
        Some("<html><head></head><body>x</body></html>"),
        12345,
    );
    let expected = format!("<html><head>{}</head><body>x</body></html>", SCRIPT_LOCAL);
    assert!(matches!(c, Connection::Reply(ref r) if *r == expected));

    let c = handle_connection(&request("GET / HTTP/1.1\r\nHost: localhost\r\n\r\n"), Some("<body>y</body>"), 12345);
    let expected = format!("<head>{}</head><body>y</body>", SCRIPT_LOCAL);
    assert!(matches!(c, Connection::Reply(ref r) if *r == expected));

    let c = handle_connection(&request("GET / HTTP/1.1\r\nHost: localhost\r\n\r\n"), Some("plain"), 12345);
    let expected = format!("<head>{}</head>plain", SCRIPT_LOCAL);
    assert!(matches!(c, Connection::Reply(ref r) if *r == expected));
}

#[test]
fn unparsable_request_is_ignored() {
    let c = handle_connection(&request("\x7f\x7f\x7f garbage\r\n\r\n"), None, 1);
    assert!(matches!(c, Connection::Ignore));
}

use nextmeet::calendar::{calendar_url, extract_auth_code, http_ok_response};

#[test]
fn calendar_url_encodes_the_window_bounds() {
    let url = calendar_url(
        "my-email@example.org",
        "2024-05-01T00:00:00+02:00",
        "2024-05-01T23:59:59+02:00",
    );
    assert_eq!(
        url,
        "https://www.googleapis.com/calendar/v3/calendars/my-email@example.org/events?\
         timeMin=2024-05-01T00%3A00%3A00%2B02%3A00&timeMax=2024-05-01T23%3A59%3A59%2B02%3A00\
         &singleEvents=true&showDeleted=false"
    );
}

#[test]
fn auth_code_is_read_from_the_request_line() {
    let line = "GET /auth?state=xyz&code=4%2F0Axyz HTTP/1.1\r\n";
    assert_eq!(extract_auth_code(line).as_deref(), Some("4/0Axyz"));
}

#[test]
fn auth_code_decodes_plus_as_space() {
    let line = "GET /auth?code=a+b HTTP/1.1\r\n";
    assert_eq!(extract_auth_code(line).as_deref(), Some("a b"));
}

#[test]
fn auth_code_decodes_utf8_escape_sequences() {
    let line = "GET /auth?code=caf%C3%A9 HTTP/1.1\r\n";
    assert_eq!(extract_auth_code(line).as_deref(), Some("caf\u{e9}"));

    let line = "GET /auth?code=%F0%9F%98%80 HTTP/1.1\r\n";
    assert_eq!(extract_auth_code(line).as_deref(), Some("\u{1F600}"));

    // A lead byte without its continuation reads as the replacement
    // character; what follows stands for itself.
    let line = "GET /auth?code=%C3x HTTP/1.1\r\n";
    assert_eq!(extract_auth_code(line).as_deref(), Some("\u{FFFD}x"));
}

#[test]
fn auth_code_missing_yields_none() {
    assert!(extract_auth_code("GET /auth?state=xyz HTTP/1.1\r\n").is_none());
    assert!(extract_auth_code("GET /auth HTTP/1.1\r\n").is_none());
    assert!(extract_auth_code("GET\r\n").is_none());
    assert!(extract_auth_code("").is_none());
}

#[test]
fn success_page_counts_its_body() {
    let body = "Go back to your terminal :)";
    assert_eq!(
        http_ok_response(body),
        "HTTP/1.1 200 OK\r\ncontent-length: 27\r\n\r\nGo back to your terminal :)"
    );
    assert_eq!(http_ok_response("hi"), "HTTP/1.1 200 OK\r\ncontent-length: 2\r\n\r\nhi");
}

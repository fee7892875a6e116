use nextmeet::tokens::{
    after_refresh, retrieve_tokens, TokenAction, TokenEvent, Tokens,
};

#[test]
fn credential_file_text_is_compact_json() {
    let t = Tokens {
        access_token: "abc".to_string(),
        refresh_token: Some("r1".to_string()),
    };
    assert_eq!(
        t.to_json(),
        "{\"access_token\":\"abc\",\"refresh_token\":\"r1\"}"
    );

    let t = Tokens { access_token: "abc".to_string(), refresh_token: None };
    assert_eq!(t.to_json(), "{\"access_token\":\"abc\",\"refresh_token\":null}");
}

#[test]
fn round_trip_with_refresh_token() {
    let t = Tokens {
        access_token: "ya29.some-access".to_string(),
        refresh_token: Some("1//refresh".to_string()),
    };
    let read = Tokens::from_json(&t.to_json()).unwrap();
    assert_eq!(read.access_token, "ya29.some-access");
    assert_eq!(read.refresh_token.as_deref(), Some("1//refresh"));
}

#[test]
fn round_trip_without_refresh_token() {
    let t = Tokens { access_token: "tok".to_string(), refresh_token: None };
    let read = Tokens::from_json(&t.to_json()).unwrap();
    assert_eq!(read.access_token, "tok");
    assert!(read.refresh_token.is_none());
}

#[test]
fn round_trip_escapes_quotes_and_backslashes() {
    let t = Tokens {
        access_token: "a\"b\\c".to_string(),
        refresh_token: Some("\\\"".to_string()),
    };
    let text = t.to_json();
    let read = Tokens::from_json(&text).unwrap();
    assert_eq!(read.access_token, "a\"b\\c");
    assert_eq!(read.refresh_token.as_deref(), Some("\\\""));
}

#[test]
fn malformed_credential_text_is_rejected() {
    assert!(Tokens::from_json("").is_none());
    assert!(Tokens::from_json("{}").is_none());
    assert!(Tokens::from_json("{\"refresh_token\":\"r\"}").is_none());
    assert!(Tokens::from_json("{\"access_token\":\"abc\",\"refresh_token\":12}").is_none());
    assert!(Tokens::from_json("{\"access_token\":null,\"refresh_token\":null}").is_none());
    assert!(Tokens::from_json("{\"access_token\":\"a\",\"access_token\":\"b\"}").is_none());
    assert!(Tokens::from_json("{\"other\":\"a\",\"refresh_token\":null}").is_none());
    assert!(Tokens::from_json("{\"access_token\":\"abc\",\"refresh_token\":null}x").is_none());
}

#[test]
fn credential_text_tolerates_json_variations() {
    // Whitespace between tokens.
    let read = Tokens::from_json(
        " { \"access_token\" : \"abc\" , \"refresh_token\" : null } ",
    )
    .unwrap();
    assert_eq!(read.access_token, "abc");
    assert!(read.refresh_token.is_none());

    // Either field order.
    let read = Tokens::from_json("{\"refresh_token\":\"r1\",\"access_token\":\"abc\"}").unwrap();
    assert_eq!(read.access_token, "abc");
    assert_eq!(read.refresh_token.as_deref(), Some("r1"));

    // A missing refresh token reads as none.
    let read = Tokens::from_json("{\"access_token\":\"abc\"}").unwrap();
    assert_eq!(read.access_token, "abc");
    assert!(read.refresh_token.is_none());

    // The standard string escapes.
    let read = Tokens::from_json(
        "{\"access_token\":\"a\\nb\\t\\/\\u0041\",\"refresh_token\":null}",
    )
    .unwrap();
    assert_eq!(read.access_token, "a\nb\t/A");
}

#[test]
fn unicode_escapes_are_decoded() {
    // A BMP code point, and an astral one written as a surrogate pair.
    let read = Tokens::from_json(
        "{\"access_token\":\"\\u1234 \\uD83D\\uDE00\",\"refresh_token\":null}",
    )
    .unwrap();
    assert_eq!(read.access_token, "\u{1234} \u{1F600}");

    // A lone surrogate is not a character.
    assert!(
        Tokens::from_json("{\"access_token\":\"\\uD83D\",\"refresh_token\":null}").is_none()
    );
    assert!(
        Tokens::from_json("{\"access_token\":\"\\uDE00\",\"refresh_token\":null}").is_none()
    );
}

#[test]
fn round_trip_escapes_control_characters() {
    let t = Tokens { access_token: "a\nb".to_string(), refresh_token: None };
    let text = t.to_json();
    assert_eq!(text, "{\"access_token\":\"a\\u000Ab\",\"refresh_token\":null}");
    let read = Tokens::from_json(&text).unwrap();
    assert_eq!(read.access_token, "a\nb");
}

#[test]
fn refresh_keeps_previous_refresh_token_when_none_is_issued() {
    let t = after_refresh("old-refresh".to_string(), "new-access".to_string(), None);
    assert_eq!(t.access_token, "new-access");
    assert_eq!(t.refresh_token.as_deref(), Some("old-refresh"));

    let t = after_refresh(
        "old-refresh".to_string(),
        "new-access".to_string(),
        Some("new-refresh".to_string()),
    );
    assert_eq!(t.refresh_token.as_deref(), Some("new-refresh"));
}

#[test]
fn policy_starts_by_loading() {
    assert!(matches!(retrieve_tokens(TokenEvent::Started), TokenAction::Load));
}

#[test]
fn policy_refreshes_a_loaded_pair_with_refresh_token() {
    let t = Tokens {
        access_token: "a".to_string(),
        refresh_token: Some("r".to_string()),
    };
    match retrieve_tokens(TokenEvent::Loaded(t)) {
        TokenAction::Refresh(p) => assert_eq!(p.refresh_token.as_deref(), Some("r")),
        _ => panic!("expected a refresh"),
    }
}

#[test]
fn policy_logs_in_when_nothing_is_stored_or_no_refresh_token_is_held() {
    assert!(matches!(retrieve_tokens(TokenEvent::LoadFailed), TokenAction::Login));
    let t = Tokens { access_token: "a".to_string(), refresh_token: None };
    assert!(matches!(retrieve_tokens(TokenEvent::Loaded(t)), TokenAction::Login));
}

#[test]
fn policy_falls_back_to_login_when_refresh_is_rejected() {
    assert!(matches!(retrieve_tokens(TokenEvent::RefreshFailed), TokenAction::Login));
}

#[test]
fn policy_finishes_on_success_and_fails_only_after_login_failure() {
    let t = Tokens { access_token: "a".to_string(), refresh_token: None };
    assert!(matches!(retrieve_tokens(TokenEvent::Refreshed(t)), TokenAction::Finish(_)));
    let t = Tokens { access_token: "a".to_string(), refresh_token: None };
    assert!(matches!(retrieve_tokens(TokenEvent::LoggedIn(t)), TokenAction::Finish(_)));
    assert!(matches!(retrieve_tokens(TokenEvent::LoginFailed), TokenAction::Fail));
}

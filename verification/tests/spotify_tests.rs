use buzz_desktop::spotify::{
    client_id_from, credential_from_token, credential_store, redirect_port_from, redirect_uri,
    require_client_id, scopes, status_from_credential, token_request_form, token_response_status,
    SpotifyCredential, SpotifyTokenResponse, DEFAULT_SPOTIFY_REDIRECT_PORT,
};

fn credential(scope: Option<&str>) -> SpotifyCredential {
    SpotifyCredential {
        access_token: Some("access".to_string()),
        connected_at: 1_700_000_000,
        expires_at: Some(1_700_003_600),
        refresh_token: "refresh".to_string(),
        scope: scope.map(|s| s.to_string()),
        token_type: Some("Bearer".to_string()),
    }
}

#[test]
fn scopes_split_on_whitespace() {
    assert_eq!(
        scopes(Some("user-read-playback-state  user-modify-playback-state\tstreaming ")),
        vec![
            "user-read-playback-state".to_string(),
            "user-modify-playback-state".to_string(),
            "streaming".to_string()
        ]
    );
    assert!(scopes(None).is_empty());
    assert!(scopes(Some("   ")).is_empty());
}

#[test]
fn status_without_credential() {
    let status = status_from_credential(None, true);
    assert!(status.configured);
    assert!(!status.connected);
    assert_eq!(status.connected_at, None);
    assert!(status.scopes.is_empty());
}

#[test]
fn status_with_credential() {
    let cred = credential(Some("streaming user-read-email"));
    let status = status_from_credential(Some(&cred), false);
    assert!(!status.configured);
    assert!(status.connected);
    assert_eq!(status.connected_at, Some(1_700_000_000));
    assert_eq!(status.scopes, vec!["streaming".to_string(), "user-read-email".to_string()]);
    let bare = credential(None);
    assert!(status_from_credential(Some(&bare), true).scopes.is_empty());
}

#[test]
fn client_id_prefers_environment() {
    assert_eq!(
        client_id_from(Some("  env-id \n".to_string()), Some("built-in")),
        Some("env-id".to_string())
    );
    assert_eq!(
        client_id_from(Some("   ".to_string()), Some(" built-in ")),
        Some("built-in".to_string())
    );
    assert_eq!(client_id_from(None, Some("")), None);
    assert_eq!(client_id_from(None, None), None);
}

#[test]
fn redirect_port_parsing() {
    assert_eq!(DEFAULT_SPOTIFY_REDIRECT_PORT, 18202);
    assert_eq!(redirect_port_from(None), 18202);
    assert_eq!(redirect_port_from(Some(" 8080 ".to_string())), 8080);
    assert_eq!(redirect_port_from(Some("+80".to_string())), 80);
    assert_eq!(redirect_port_from(Some("0".to_string())), 18202);
    assert_eq!(redirect_port_from(Some("70000".to_string())), 18202);
    assert_eq!(redirect_port_from(Some("port".to_string())), 18202);
}

#[test]
fn redirect_uri_for_port() {
    assert_eq!(redirect_uri(18202), "http://127.0.0.1:18202/oauth/spotify/callback");
    assert_eq!(redirect_uri(0), "http://127.0.0.1:0/oauth/spotify/callback");
}

#[test]
fn client_id_required_to_connect() {
    assert_eq!(require_client_id(Some("id".to_string())), Ok("id".to_string()));
    assert_eq!(
        require_client_id(None),
        Err("Set BUZZ_SPOTIFY_CLIENT_ID to enable Spotify.".to_string())
    );
}

#[test]
fn credential_from_token_response() {
    let token = SpotifyTokenResponse {
        access_token: Some("a".to_string()),
        expires_in: Some(3600),
        refresh_token: Some("r".to_string()),
        scope: Some("streaming".to_string()),
        token_type: Some("Bearer".to_string()),
    };
    let cred = credential_from_token(token, 100, 101).unwrap();
    assert_eq!(cred.connected_at, 100);
    assert_eq!(cred.expires_at, Some(3701));
    assert_eq!(cred.refresh_token, "r");
    assert_eq!(cred.access_token.as_deref(), Some("a"));
    assert_eq!(cred.scope.as_deref(), Some("streaming"));
    assert_eq!(cred.token_type.as_deref(), Some("Bearer"));

    let missing = SpotifyTokenResponse {
        access_token: Some("a".to_string()),
        expires_in: None,
        refresh_token: None,
        scope: None,
        token_type: None,
    };
    match credential_from_token(missing, 1, 1) {
        Err(e) => {
            assert_eq!(e, "Spotify did not return a refresh token. Disconnect and try again.")
        }
        Ok(_) => panic!("a token without a refresh token must be refused"),
    }
}

#[test]
fn token_form_fields() {
    let form = token_request_form("the-code", "verifier", "http://127.0.0.1:1/cb", "client");
    let expected: Vec<(String, String)> = vec![
        ("client_id", "client"),
        ("code", "the-code"),
        ("code_verifier", "verifier"),
        ("grant_type", "authorization_code"),
        ("redirect_uri", "http://127.0.0.1:1/cb"),
    ]
    .into_iter()
    .map(|(k, v)| (k.to_string(), v.to_string()))
    .collect();
    assert_eq!(form, expected);
}

#[test]
fn token_status_check() {
    assert_eq!(token_response_status(200, "200 OK", "{}"), Ok(()));
    assert_eq!(token_response_status(299, "299 <unknown status code>", ""), Ok(()));
    assert_eq!(
        token_response_status(400, "400 Bad Request", "{\"error\":\"invalid_grant\"}"),
        Err("Spotify token request returned 400 Bad Request: {\"error\":\"invalid_grant\"}"
            .to_string())
    );
    assert!(token_response_status(199, "199", "").is_err());
    assert!(token_response_status(300, "300 Multiple Choices", "").is_err());
}

#[test]
fn credential_store_names_service() {
    assert_eq!(credential_store("buzz").service, "buzz");
}

#[test]
fn missing_refresh_token_refused_before_expiry_is_counted() {
    let token = SpotifyTokenResponse {
        access_token: Some("a".to_string()),
        expires_in: Some(i64::MAX),
        refresh_token: None,
        scope: None,
        token_type: None,
    };
    match credential_from_token(token, i64::MAX, i64::MAX) {
        Err(e) => {
            assert_eq!(e, "Spotify did not return a refresh token. Disconnect and try again.")
        }
        Ok(_) => panic!("a token without a refresh token must be refused"),
    }
}

#[test]
fn scopes_rejoin_and_split_again() {
    for text in ["user-read-email  streaming\t playlist-read-private ", "", "  one  "] {
        let first = scopes(Some(text));
        let joined = first.join(" ");
        assert_eq!(scopes(Some(&joined)), first);
    }
}

#[test]
fn status_after_disconnect_and_reload() {
    let stored = credential(Some("streaming user-read-email"));
    let connected = status_from_credential(Some(&stored), true);
    let reloaded = credential(Some("streaming user-read-email"));
    let again = status_from_credential(Some(&reloaded), true);
    assert_eq!(again.connected, connected.connected);
    assert_eq!(again.connected_at, connected.connected_at);
    assert_eq!(again.scopes, connected.scopes);
    let gone = status_from_credential(None, true);
    assert!(gone.configured && !gone.connected && gone.connected_at.is_none());
    assert!(gone.scopes.is_empty());
}

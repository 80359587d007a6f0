use buzz_desktop::oauth::{
    callback_outcome, callback_reply, callback_response, oauth_authorization_url,
    oauth_callback_answer, oauth_callback_result, request_target,
};

fn pairs(items: &[(&str, &str)]) -> Vec<(String, String)> {
    items.iter().map(|(k, v)| (k.to_string(), v.to_string())).collect()
}

#[test]
fn authorization_url_matches_url_crate() {
    let client_id = "abc123";
    let redirect = "http://127.0.0.1:18202/oauth/spotify/callback";
    let state = "st&te=1 é";
    let challenge = "E9Melhoa2OwvFrEMTJguCHaoeK1t8URWbuGJSstw-cM";
    let mut expected = url::Url::parse("https://accounts.spotify.com/authorize").unwrap();
    expected
        .query_pairs_mut()
        .append_pair("client_id", client_id)
        .append_pair("redirect_uri", redirect)
        .append_pair("response_type", "code")
        .append_pair("state", state)
        .append_pair("code_challenge", challenge)
        .append_pair("code_challenge_method", "S256");
    let got = oauth_authorization_url(client_id, redirect, state, challenge).unwrap();
    assert_eq!(got, expected.as_str());
    assert_eq!(
        got,
        "https://accounts.spotify.com/authorize?client_id=abc123&redirect_uri=http%3A%2F%2F127.0.0.1%3A18202%2Foauth%2Fspotify%2Fcallback&response_type=code&state=st%26te%3D1+%C3%A9&code_challenge=E9Melhoa2OwvFrEMTJguCHaoeK1t8URWbuGJSstw-cM&code_challenge_method=S256"
    );
}

#[test]
fn request_target_of_request_line() {
    assert_eq!(
        request_target("GET /oauth/spotify/callback?code=x HTTP/1.1\r\nHost: 127.0.0.1\r\n\r\n"),
        Some("/oauth/spotify/callback?code=x".to_string())
    );
    assert_eq!(request_target(""), None);
    assert_eq!(request_target("GET\r\n"), None);
    assert_eq!(request_target("\nGET / HTTP/1.1"), None);
    assert_eq!(request_target("GET /a"), Some("/a".to_string()));
}

#[test]
fn callback_with_code_and_state() {
    let req = "GET /oauth/spotify/callback?code=AQB%2Bcode&state=s1 HTTP/1.1\r\n\r\n";
    assert_eq!(oauth_callback_result(req, "s1"), Ok("AQB+code".to_string()));
}

#[test]
fn callback_errors() {
    assert_eq!(
        oauth_callback_result("", "s"),
        Err("Invalid OAuth callback request.".to_string())
    );
    assert_eq!(
        oauth_callback_result("GET /other?code=c&state=s HTTP/1.1\r\n", "s"),
        Err("Spotify returned an unexpected OAuth callback path.".to_string())
    );
    assert_eq!(
        oauth_callback_result(
            "GET /oauth/spotify/callback?error=access_denied&state=s HTTP/1.1\r\n",
            "s"
        ),
        Err("Spotify authorization couldn't complete: access_denied".to_string())
    );
    assert_eq!(
        oauth_callback_result("GET /oauth/spotify/callback?code=c&state=t HTTP/1.1\r\n", "s"),
        Err("Spotify authorization state did not match.".to_string())
    );
    assert_eq!(
        oauth_callback_result("GET /oauth/spotify/callback?state=s HTTP/1.1\r\n", "s"),
        Err("Spotify authorization returned no code.".to_string())
    );
    let bad = oauth_callback_result("GET :99999/oauth/spotify/callback HTTP/1.1\r\n", "s");
    assert!(bad.unwrap_err().starts_with("parse OAuth callback: "));
}

#[test]
fn callback_last_value_wins() {
    let p = pairs(&[("code", "first"), ("state", "s"), ("code", "second")]);
    assert_eq!(
        callback_outcome("/oauth/spotify/callback", &p, "s"),
        Ok("second".to_string())
    );
    let p = pairs(&[("state", "x"), ("state", "s"), ("code", "c")]);
    assert_eq!(callback_outcome("/oauth/spotify/callback", &p, "s"), Ok("c".to_string()));
}

fn original_response(title: &str, body: &str) -> String {
    let html = format!(
        "<!doctype html><html><head><meta charset=\"utf-8\"><title>{title}</title></head>\
         <body><main style=\"font-family: system-ui, sans-serif; max-width: 34rem; margin: 4rem auto;\">\
         <h1>{title}</h1><p>{body}</p></main></body></html>"
    );
    format!(
        "HTTP/1.1 200 OK\r\nContent-Type: text/html; charset=utf-8\r\nContent-Length: {}\r\nConnection: close\r\n\r\n{}",
        html.len(),
        html
    )
}

#[test]
fn callback_response_layout() {
    for (t, b) in [("Spotify authorization received", "Return."), ("Ünïcode ✓", "body")] {
        let r = callback_response(t, b);
        assert_eq!(r, original_response(t, b));
        let (head, html) = r.split_once("\r\n\r\n").unwrap();
        assert!(head.contains(&format!("Content-Length: {}", html.len())));
    }
}

#[test]
fn callback_reply_pages() {
    assert_eq!(
        callback_reply(true),
        original_response(
            "Spotify authorization received",
            "Return to Buzz to finish connecting Spotify."
        )
    );
    assert_eq!(
        callback_reply(false),
        original_response("Spotify connection incomplete", "Return to Buzz to try again.")
    );
}

#[test]
fn authorization_query_reads_back() {
    let params = [
        ("client_id", "id with spaces+plus"),
        ("redirect_uri", "http://127.0.0.1:18202/oauth/spotify/callback"),
        ("response_type", "code"),
        ("state", "a&b=c%d"),
        ("code_challenge", "ünïcödé ✓"),
        ("code_challenge_method", "S256"),
    ];
    let url = oauth_authorization_url(params[0].1, params[1].1, params[3].1, params[4].1).unwrap();
    let query = url.split_once('?').unwrap().1;
    let back: Vec<(String, String)> = url::form_urlencoded::parse(query.as_bytes())
        .map(|(k, v)| (k.into_owned(), v.into_owned()))
        .collect();
    assert_eq!(back, pairs(&params));
}

#[test]
fn malformed_callback_gets_no_page() {
    let (result, page) = oauth_callback_answer("GARBAGE\r\n\r\n", "xyz");
    assert_eq!(result, Err("Invalid OAuth callback request.".to_string()));
    assert_eq!(page, None);
    let (result, page) =
        oauth_callback_answer("GET :99999/oauth/spotify/callback HTTP/1.1\r\n", "xyz");
    assert!(result.unwrap_err().starts_with("parse OAuth callback: "));
    assert_eq!(page, None);
}

#[test]
fn callback_pages_follow_outcome() {
    let (result, page) = oauth_callback_answer(
        "GET /oauth/spotify/callback?code=c&state=xyz HTTP/1.1\r\n",
        "xyz",
    );
    assert_eq!(result, Ok("c".to_string()));
    assert_eq!(page, Some(callback_reply(true)));
    let (result, page) = oauth_callback_answer(
        "GET /oauth/spotify/callback?code=c&state=abc HTTP/1.1\r\n",
        "xyz",
    );
    assert_eq!(result, Err("Spotify authorization state did not match.".to_string()));
    assert_eq!(page, Some(callback_reply(false)));
}

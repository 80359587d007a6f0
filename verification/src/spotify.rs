//! Spotify connection state: the stored credential, the status reported to
//! the interface, and the decisions taken while connecting.
use vstd::prelude::*;

use crate::text::{
    decimal, decimal_string, lemma_parse_u16_decimal, lemma_trim_decimal, lemma_trim_idempotent, parse_u16, parse_u16_spec, split_whitespace, trim,
    trim_spec, views, words,
};

verus! {

/// Port of the local OAuth callback listener when none is configured.
pub const DEFAULT_SPOTIFY_REDIRECT_PORT: u16 = 18202;

/// The credential kept in the keyring once Spotify is connected.
pub struct SpotifyCredential {
    pub access_token: Option<String>,
    pub connected_at: i64,
    pub expires_at: Option<i64>,
    pub refresh_token: String,
    pub scope: Option<String>,
    pub token_type: Option<String>,
}

/// What Spotify's token endpoint answers.
pub struct SpotifyTokenResponse {
    pub access_token: Option<String>,
    pub expires_in: Option<i64>,
    pub refresh_token: Option<String>,
    pub scope: Option<String>,
    pub token_type: Option<String>,
}

/// The connection status shown to the user.
pub struct SpotifyStatus {
    pub configured: bool,
    pub connected: bool,
    pub connected_at: Option<i64>,
    pub scopes: Vec<String>,
}

/// The keyring that holds the app's secrets, named by its service.
pub struct SecretStore {
    pub service: String,
}

/// The view of an optional string.
pub open spec fn opt_view(o: Option<String>) -> Option<Seq<char>> {
    match o {
        Some(s) => Some(s@),
        None => None,
    }
}

/// The keyring store of the given service, where the Spotify credential lives.
pub fn credential_store(keyring_service: &str) -> (store: SecretStore)
    ensures
        store.service@ == keyring_service@,
{
    SecretStore { service: keyring_service.to_owned() }
}

/// The text that a granted scope string is split from.
pub open spec fn scope_text(scope: Option<Seq<char>>) -> Seq<char> {
    match scope {
        Some(s) => s,
        None => seq![],
    }
}

/// The scopes listed in a space-separated scope string; no scope at all when
/// there is no string.
pub fn scopes(scope: Option<&str>) -> (r: Vec<String>)
    ensures
        views(r@) == words(scope_text(
            match scope {
                Some(s) => Some(s@),
                None => None,
            },
        )),
{
    match scope {
        Some(s) => split_whitespace(s),
        None => {
            let r: Vec<String> = Vec::new();
            assert(views(r@) =~= Seq::<Seq<char>>::empty());
            r
        },
    }
}

/// A status as plain values: configured, connected, connection time, scopes.
pub open spec fn status_view(s: SpotifyStatus) -> (bool, bool, Option<i64>, Seq<Seq<char>>) {
    (s.configured, s.connected, s.connected_at, views(s.scopes@))
}

/// The status shown for a stored credential, if any, as plain values.
pub open spec fn status_spec(credential: Option<SpotifyCredential>, configured: bool) -> (
    bool,
    bool,
    Option<i64>,
    Seq<Seq<char>>,
) {
    match credential {
        Some(c) => (configured, true, Some(c.connected_at), words(scope_text(opt_view(c.scope)))),
        None => (configured, false, None, words(seq![])),
    }
}

/// The status for a stored credential, if any; `configured` says whether a
/// client id is set.
pub fn status_from_credential(credential: Option<&SpotifyCredential>, configured: bool) -> (r:
    SpotifyStatus)
    ensures
        status_view(r) == status_spec(
            match credential {
                Some(c) => Some(*c),
                None => None,
            },
            configured,
        ),
        r.configured == configured,
        r.connected == credential.is_some(),
        r.connected_at == (match credential {
            Some(c) => Some(c.connected_at),
            None => None,
        }),
        views(r.scopes@) == words(scope_text(
            match credential {
                Some(c) => opt_view(c.scope),
                None => None,
            },
        )),
{
    let (connected, connected_at, granted) = match credential {
        Some(c) => {
            let granted = match &c.scope {
                Some(s) => scopes(Some(s.as_str())),
                None => scopes(None),
            };
            (true, Some(c.connected_at), granted)
        },
        None => (false, None, scopes(None)),
    };
    SpotifyStatus { configured, connected, connected_at, scopes: granted }
}

/// The trimmed client id, unless it is empty.
pub open spec fn nonempty_trimmed(s: Option<Seq<char>>) -> Option<Seq<char>> {
    match s {
        Some(v) => if trim_spec(v).len() > 0 {
            Some(trim_spec(v))
        } else {
            None
        },
        None => None,
    }
}

/// The client id in effect: the environment's value if it is set and not
/// blank, else the one built into the app if that is not blank.
pub open spec fn client_id_spec(env_value: Option<Seq<char>>, built_in: Option<Seq<char>>) -> Option<
    Seq<char>,
> {
    match nonempty_trimmed(env_value) {
        Some(v) => Some(v),
        None => nonempty_trimmed(built_in),
    }
}

fn trimmed_nonempty(s: &str) -> (r: Option<String>)
    ensures
        opt_view(r) == nonempty_trimmed(Some(s@)),
        r matches Some(v) ==> v@.len() > 0 && trim_spec(v@) == v@,
{
    let t = trim(s);
    proof {
        lemma_trim_idempotent(s@);
    }
    if t.unicode_len() == 0 {
        None
    } else {
        Some(t.to_owned())
    }
}

/// The Spotify client id from the value of the environment variable and the
/// value built into the app.
pub fn client_id_from(env_value: Option<String>, built_in: Option<&str>) -> (r: Option<String>)
    ensures
        opt_view(r) == client_id_spec(
            opt_view(env_value),
            match built_in {
                Some(s) => Some(s@),
                None => None,
            },
        ),
        r matches Some(v) ==> v@.len() > 0 && trim_spec(v@) == v@,
{
    let from_env = match &env_value {
        Some(v) => trimmed_nonempty(v.as_str()),
        None => None,
    };
    match from_env {
        Some(v) => Some(v),
        None => match built_in {
            Some(b) => trimmed_nonempty(b),
            None => None,
        },
    }
}

/// The callback port in effect: the configured value if it reads as a
/// non-zero `u16` once trimmed, else the default port.
pub open spec fn redirect_port_spec(value: Option<Seq<char>>) -> u16 {
    match value {
        Some(v) => match parse_u16_spec(trim_spec(v)) {
            Some(p) => if p != 0 {
                p
            } else {
                DEFAULT_SPOTIFY_REDIRECT_PORT
            },
            None => DEFAULT_SPOTIFY_REDIRECT_PORT,
        },
        None => DEFAULT_SPOTIFY_REDIRECT_PORT,
    }
}

/// The callback port from the value of the environment variable, if set.
pub fn redirect_port_from(value: Option<String>) -> (r: u16)
    ensures
        r == redirect_port_spec(opt_view(value)),
        r != 0,
{
    match &value {
        Some(v) => match parse_u16(trim(v.as_str())) {
            Some(p) => if p != 0 {
                p
            } else {
                DEFAULT_SPOTIFY_REDIRECT_PORT
            },
            None => DEFAULT_SPOTIFY_REDIRECT_PORT,
        },
        None => DEFAULT_SPOTIFY_REDIRECT_PORT,
    }
}

/// The client id, or the error that connecting reports without one.
pub fn require_client_id(client_id: Option<String>) -> (r: Result<String, String>)
    ensures
        match r {
            Ok(id) => client_id == Some(id),
            Err(e) => client_id is None && e@ == "Set BUZZ_SPOTIFY_CLIENT_ID to enable Spotify."@,
        },
{
    match client_id {
        Some(id) => Ok(id),
        None => Err("Set BUZZ_SPOTIFY_CLIENT_ID to enable Spotify.".to_owned()),
    }
}

/// The credential to store once Spotify has answered `token`; connecting
/// fails when no refresh token came back. `connected_at` is the time of
/// connection and `now` the time the expiry is counted from.
pub fn credential_from_token(token: SpotifyTokenResponse, connected_at: i64, now: i64) -> (r: Result<
    SpotifyCredential,
    String,
>)
    requires
        token.refresh_token is Some ==> (token.expires_in matches Some(s) ==> i64::MIN <= now + s
            <= i64::MAX),
    ensures
        match r {
            Ok(c) => {
                &&& token.refresh_token == Some(c.refresh_token)
                &&& c.access_token == token.access_token
                &&& c.connected_at == connected_at
                &&& c.expires_at == (match token.expires_in {
                    Some(s) => Some((now + s) as i64),
                    None => None,
                })
                &&& c.scope == token.scope
                &&& c.token_type == token.token_type
            },
            Err(e) => token.refresh_token is None
                && e@ == "Spotify did not return a refresh token. Disconnect and try again."@,
        },
{
    let refresh_token = match token.refresh_token {
        Some(t) => t,
        None => {
            return Err(
                "Spotify did not return a refresh token. Disconnect and try again.".to_owned(),
            );
        },
    };
    let expires_at = match token.expires_in {
        Some(seconds) => Some(now + seconds),
        None => None,
    };
    Ok(
        SpotifyCredential {
            access_token: token.access_token,
            connected_at,
            expires_at,
            refresh_token,
            scope: token.scope,
            token_type: token.token_type,
        },
    )
}

/// Path of the local OAuth callback.
pub open spec fn callback_path_spec() -> Seq<char> {
    "/oauth/spotify/callback"@
}

/// The redirect URI registered for the local callback on `port`.
pub open spec fn redirect_uri_spec(port: u16) -> Seq<char> {
    "http://127.0.0.1:"@ + decimal(port as nat) + "/oauth/spotify/callback"@
}

/// The redirect URI of the local callback listener on `port`.
pub fn redirect_uri(port: u16) -> (r: String)
    ensures
        r@ == redirect_uri_spec(port),
{
    let mut r = "http://127.0.0.1:".to_owned();
    let digits = decimal_string(port as u64);
    r.append(digits.as_str());
    r.append("/oauth/spotify/callback");
    r
}

/// The form fields of the authorization-code exchange, in the order sent.
pub open spec fn token_form_spec(
    code: Seq<char>,
    code_verifier: Seq<char>,
    redirect_uri: Seq<char>,
    client_id: Seq<char>,
) -> Seq<(Seq<char>, Seq<char>)> {
    seq![
        ("client_id"@, client_id),
        ("code"@, code),
        ("code_verifier"@, code_verifier),
        ("grant_type"@, "authorization_code"@),
        ("redirect_uri"@, redirect_uri),
    ]
}

/// The views of a list of string pairs.
pub open spec fn pair_views(v: Seq<(String, String)>) -> Seq<(Seq<char>, Seq<char>)> {
    v.map_values(|p: (String, String)| (p.0@, p.1@))
}

/// The form posted to Spotify's token endpoint to exchange `code`.
pub fn token_request_form(code: &str, code_verifier: &str, redirect_uri: &str, client_id: &str) -> (r:
    Vec<(String, String)>)
    ensures
        pair_views(r@) == token_form_spec(code@, code_verifier@, redirect_uri@, client_id@),
{
    let mut form: Vec<(String, String)> = Vec::new();
    form.push(("client_id".to_owned(), client_id.to_owned()));
    form.push(("code".to_owned(), code.to_owned()));
    form.push(("code_verifier".to_owned(), code_verifier.to_owned()));
    form.push(("grant_type".to_owned(), "authorization_code".to_owned()));
    form.push(("redirect_uri".to_owned(), redirect_uri.to_owned()));
    assert(pair_views(form@) =~= token_form_spec(code@, code_verifier@, redirect_uri@, client_id@));
    form
}

/// Whether an HTTP status code is in the success range.
pub open spec fn is_success_status(status: u16) -> bool {
    200 <= status <= 299
}

/// Checks the status of the token endpoint's answer: a non-success status
/// fails with the status (as `status_text` shows it) and the body.
pub fn token_response_status(status: u16, status_text: &str, body: &str) -> (r: Result<(), String>)
    ensures
        match r {
            Ok(_) => is_success_status(status),
            Err(e) => !is_success_status(status) && e@ == "Spotify token request returned "@
                + status_text@ + ": "@ + body@,
        },
{
    if 200 <= status && status <= 299 {
        Ok(())
    } else {
        let mut e = "Spotify token request returned ".to_owned();
        e.append(status_text);
        e.append(": ");
        e.append(body);
        Err(e)
    }
}

/// The status reported after a credential is read back from the keyring is
/// the status reported when it was stored, as long as the credential read
/// back has the same connection time and scope string.
pub proof fn lemma_status_survives_reload(
    stored: SpotifyCredential,
    loaded: SpotifyCredential,
    configured: bool,
)
    requires
        loaded.connected_at == stored.connected_at,
        opt_view(loaded.scope) == opt_view(stored.scope),
    ensures
        status_spec(Some(loaded), configured) == status_spec(Some(stored), configured),
{
}

/// Once the credential is deleted, the status is: not connected, no
/// connection time, no scopes.
pub proof fn lemma_status_after_disconnect(configured: bool)
    ensures
        status_spec(None, configured) == (configured, false, None::<i64>, Seq::<Seq<char>>::empty()),
{
    assert(words(seq![]) =~= Seq::<Seq<char>>::empty());
}

/// The client id in effect: the environment's value, trimmed, when it is
/// not blank; otherwise the built-in value, trimmed, when there is one and it
/// is not blank (also when the environment variable is unset); otherwise
/// none.
pub proof fn lemma_client_id_resolution(env_value: Option<Seq<char>>, built_in: Option<Seq<char>>)
    ensures
        forall|e: Seq<char>|
            env_value == Some(e) && #[trigger] trim_spec(e).len() > 0 ==> client_id_spec(
                env_value,
                built_in,
            ) == Some(trim_spec(e)),
        forall|b: Seq<char>|
            (env_value is None || trim_spec(env_value.unwrap()).len() == 0) && built_in == Some(b)
                && #[trigger] trim_spec(b).len() > 0 ==> client_id_spec(env_value, built_in) == Some(
                trim_spec(b),
            ),
        (env_value is None || trim_spec(env_value.unwrap()).len() == 0) && (built_in is None
            || trim_spec(built_in.unwrap()).len() == 0) ==> client_id_spec(env_value, built_in)
            is None,
{
}

/// A configured callback port is used whenever its trimmed text reads as a
/// non-zero `u16`.
pub proof fn lemma_redirect_port_uses_configured(value: Seq<char>, port: u16)
    requires
        parse_u16_spec(trim_spec(value)) == Some(port),
        port != 0,
    ensures
        redirect_port_spec(Some(value)) == port,
{
}

/// Configuring any non-zero port, written in decimal, makes it the port in
/// effect.
pub proof fn lemma_redirect_port_of_decimal(n: u16)
    requires
        n != 0,
    ensures
        redirect_port_spec(Some(decimal(n as nat))) == n,
{
    lemma_trim_decimal(n as nat);
    lemma_parse_u16_decimal(n);
}

} // verus!

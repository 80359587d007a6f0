//! The OAuth authorization request and the local callback that receives
//! Spotify's answer.
use vstd::prelude::*;
use vstd::string::StringSliceAdditionalSpecFns;

use crate::spotify::{callback_path_spec, opt_view, pair_views};
use crate::text::{
    decimal, decimal_string, is_clean_word, is_ws, join_with_spaces, lemma_words_join, push_char,
    split_whitespace, str_eq, views, words,
};

verus! {

/// A byte that `application/x-www-form-urlencoded` serialization keeps as it
/// is: `*`, `-`, `.`, `_`, ASCII digits and letters.
pub open spec fn is_form_unchanged(b: u8) -> bool {
    b == 42 || b == 45 || b == 46 || (48 <= b <= 57) || (65 <= b <= 90) || b == 95 || (97 <= b
        <= 122)
}

/// The upper-case hexadecimal digit of `v`.
pub open spec fn hex_upper(v: int) -> char {
    if v < 10 {
        (48 + v) as char
    } else {
        (55 + v) as char
    }
}

/// How form serialization writes one byte: unchanged, `+` for a space, or
/// `%` and two upper-case hexadecimal digits.
pub open spec fn form_byte(b: u8) -> Seq<char> {
    if is_form_unchanged(b) {
        seq![b as char]
    } else if b == 32 {
        seq!['+']
    } else {
        seq!['%', hex_upper(b as int / 16), hex_upper(b as int % 16)]
    }
}

/// The `application/x-www-form-urlencoded` serialization of `bytes`.
pub open spec fn form_serialize(bytes: Seq<u8>) -> Seq<char>
    decreases bytes.len(),
{
    if bytes.len() == 0 {
        seq![]
    } else {
        form_byte(bytes[0]) + form_serialize(bytes.drop_first())
    }
}

/// The form serialization of the UTF-8 bytes of `s`.
pub open spec fn form_encode(s: Seq<char>) -> Seq<char> {
    form_serialize(vstd::utf8::encode_utf8(s))
}

/// `form_urlencoded::Serializer::new(query).append_pair(name, value)` of the
/// url crate: appends `&` when the query is not empty, then `name=value`
/// with both sides form-serialized from their UTF-8 bytes.
#[verifier::external_body]
fn append_query_pair(query: &mut String, name: &str, value: &str)
    ensures
        final(query)@ == (if old(query)@.len() > 0 {
            old(query)@.push('&')
        } else {
            old(query)@
        }) + form_serialize(name.spec_bytes()) + seq!['='] + form_serialize(value.spec_bytes()),
{
    url::form_urlencoded::Serializer::new(query).append_pair(name, value);
}

/// `key=value` with both sides form-serialized.
pub open spec fn form_pair(p: (Seq<char>, Seq<char>)) -> Seq<char> {
    form_encode(p.0) + seq!['='] + form_encode(p.1)
}

/// The form-serialized pairs joined by `&`, as a query string.
pub open spec fn form_query(pairs: Seq<(Seq<char>, Seq<char>)>) -> Seq<char>
    decreases pairs.len(),
{
    if pairs.len() == 0 {
        seq![]
    } else if pairs.len() == 1 {
        form_pair(pairs[0])
    } else {
        form_query(pairs.drop_last()) + seq!['&'] + form_pair(pairs.last())
    }
}

/// The query string of `pairs`, as appending each pair to a URL's query
/// serializer writes it.
pub fn form_query_string(pairs: &Vec<(String, String)>) -> (r: String)
    ensures
        r@ == form_query(pair_views(pairs@)),
{
    let mut r = String::new();
    let mut i: usize = 0;
    while i < pairs.len()
        invariant
            i <= pairs@.len(),
            r@ == form_query(pair_views(pairs@).take(i as int)),
            i > 0 ==> r@.len() > 0,
        decreases pairs@.len() - i,
    {
        let ghost pv = pair_views(pairs@);
        assert(pv.take(i + 1).drop_last() =~= pv.take(i as int));
        assert(pv.take(i + 1).last() == pv[i as int]);
        if i == 0 {
            assert(pv.take(1)[0] == pv[0]);
        }
        append_query_pair(&mut r, pairs[i].0.as_str(), pairs[i].1.as_str());
        proof {
            let p = pv[i as int];
            assert(form_pair(p)[form_encode(p.0).len() as int] == '=');
        }
        i = i + 1;
    }
    assert(pair_views(pairs@).take(pairs@.len() as int) =~= pair_views(pairs@));
    r
}

/// Spotify's authorization endpoint.
pub open spec fn auth_endpoint_spec() -> Seq<char> {
    "https://accounts.spotify.com/authorize"@
}

/// The query parameters of the authorization request, in order.
pub open spec fn auth_params(
    client_id: Seq<char>,
    redirect_uri: Seq<char>,
    state: Seq<char>,
    code_challenge: Seq<char>,
) -> Seq<(Seq<char>, Seq<char>)> {
    seq![
        ("client_id"@, client_id),
        ("redirect_uri"@, redirect_uri),
        ("response_type"@, "code"@),
        ("state"@, state),
        ("code_challenge"@, code_challenge),
        ("code_challenge_method"@, "S256"@),
    ]
}

/// The authorization URL that the user's browser is sent to: the endpoint,
/// `?` and the form-serialized parameters.
pub fn oauth_authorization_url(
    client_id: &str,
    redirect_uri: &str,
    state: &str,
    code_challenge: &str,
) -> (r: Result<String, String>)
    ensures
        r matches Ok(u) && u@ == auth_endpoint_spec() + seq!['?'] + form_query(
            auth_params(client_id@, redirect_uri@, state@, code_challenge@),
        ),
{
    let mut params: Vec<(String, String)> = Vec::new();
    params.push(("client_id".to_owned(), client_id.to_owned()));
    params.push(("redirect_uri".to_owned(), redirect_uri.to_owned()));
    params.push(("response_type".to_owned(), "code".to_owned()));
    params.push(("state".to_owned(), state.to_owned()));
    params.push(("code_challenge".to_owned(), code_challenge.to_owned()));
    params.push(("code_challenge_method".to_owned(), "S256".to_owned()));
    assert(pair_views(params@) =~= auth_params(client_id@, redirect_uri@, state@, code_challenge@));
    let query = form_query_string(&params);
    let mut url = "https://accounts.spotify.com/authorize".to_owned();
    push_char(&mut url, '?');
    url.append(query.as_str());
    Ok(url)
}

/// The text before the first line feed of `s` (all of `s` if it has none).
pub open spec fn before_newline(s: Seq<char>) -> Seq<char>
    decreases s.len(),
{
    if s.len() == 0 || s[0] == '\n' {
        seq![]
    } else {
        seq![s[0]] + before_newline(s.drop_first())
    }
}

/// The first line of `s` as `str::lines` yields it: the text before the first
/// line feed, without a carriage return just before that line feed; none for
/// empty text.
pub open spec fn first_line(s: Seq<char>) -> Option<Seq<char>> {
    if s.len() == 0 {
        None
    } else {
        let p = before_newline(s);
        if p.len() < s.len() && p.len() > 0 && p.last() == '\r' {
            Some(p.drop_last())
        } else {
            Some(p)
        }
    }
}

/// The request target of an HTTP request: the second word of its first line.
pub open spec fn request_target_spec(request: Seq<char>) -> Option<Seq<char>> {
    match first_line(request) {
        Some(line) => if words(line).len() >= 2 {
            Some(words(line)[1])
        } else {
            None
        },
        None => None,
    }
}

proof fn lemma_before_newline(s: Seq<char>, i: int)
    requires
        0 <= i <= s.len(),
        forall|k: int| 0 <= k < i ==> #[trigger] s[k] != '\n',
    ensures
        before_newline(s) == s.take(i) + before_newline(s.skip(i)),
    decreases i,
{
    if i == 0 {
        assert(s.skip(0) =~= s);
        assert(s.take(0) + before_newline(s) =~= before_newline(s));
    } else {
        let t = s.drop_first();
        assert forall|k: int| 0 <= k < i - 1 implies #[trigger] t[k] != '\n' by {
            assert(t[k] == s[k + 1]);
        }
        lemma_before_newline(t, i - 1);
        assert(t.skip(i - 1) =~= s.skip(i));
        assert(seq![s[0]] + (t.take(i - 1) + before_newline(s.skip(i))) =~= s.take(i)
            + before_newline(s.skip(i)));
    }
}

/// The request target of the HTTP request the callback listener read.
pub fn request_target(request: &str) -> (r: Option<String>)
    ensures
        match r {
            Some(t) => request_target_spec(request@) == Some(t@),
            None => request_target_spec(request@) is None,
        },
{
    let n = request.unicode_len();
    if n == 0 {
        return None;
    }
    let mut i: usize = 0;
    while i < n && request.get_char(i) != '\n'
        invariant
            n == request@.len(),
            i <= n,
            forall|k: int| 0 <= k < i ==> #[trigger] request@[k] != '\n',
        decreases n - i,
    {
        i = i + 1;
    }
    proof {
        lemma_before_newline(request@, i as int);
        let rest = request@.skip(i as int);
        if rest.len() > 0 {
            assert(rest[0] == '\n');
        }
        assert(before_newline(request@) =~= request@.take(i as int));
    }
    let end = if i < n && i > 0 && request.get_char(i - 1) == '\r' {
        i - 1
    } else {
        i
    };
    let line = request.substring_char(0, end);
    proof {
        let p = request@.take(i as int);
        if i < n && i > 0 && request@[i - 1] == '\r' {
            assert(p.drop_last() =~= line@);
        } else {
            assert(p =~= line@);
        }
    }
    let parts = split_whitespace(line);
    if parts.len() >= 2 {
        assert(views(parts@)[1] == parts@[1]@);
        Some(parts[1].clone())
    } else {
        None
    }
}

/// What `Url::parse` of the url crate makes of `s`: its path and its decoded
/// query pairs, or the text of the parse error.
pub uninterp spec fn parsed_url(s: Seq<char>) -> Result<
    (Seq<char>, Seq<(Seq<char>, Seq<char>)>),
    Seq<char>,
>;

/// `Url::parse(s)` of the url crate, taken apart into the URL's `path()` and
/// its `query_pairs()`, or the parse error written out. Both are named by
/// `parsed_url`.
#[verifier::external_body]
fn parse_url_parts(s: &str) -> (r: Result<(String, Vec<(String, String)>), String>)
    ensures
        match r {
            Ok(parts) => parsed_url(s@) == Ok::<_, Seq<char>>((parts.0@, pair_views(parts.1@))),
            Err(e) => parsed_url(s@) == Err::<(Seq<char>, Seq<(Seq<char>, Seq<char>)>), _>(e@),
        },
{
    match url::Url::parse(s) {
        Ok(u) => {
            let mut pairs = Vec::new();
            for (k, v) in u.query_pairs() {
                pairs.push((k.into_owned(), v.into_owned()));
            }
            Ok((u.path().to_owned(), pairs))
        },
        Err(e) => Err(e.to_string()),
    }
}

/// The value of the last pair named `key`, if any.
pub open spec fn last_value(pairs: Seq<(Seq<char>, Seq<char>)>, key: Seq<char>) -> Option<Seq<char>>
    decreases pairs.len(),
{
    if pairs.len() == 0 {
        None
    } else if pairs.last().0 == key {
        Some(pairs.last().1)
    } else {
        last_value(pairs.drop_last(), key)
    }
}

/// How the callback ends, given the callback URL's path and query pairs: the
/// authorization code, or why there is none.
pub open spec fn callback_outcome_spec(
    path: Seq<char>,
    pairs: Seq<(Seq<char>, Seq<char>)>,
    expected_state: Seq<char>,
) -> Result<Seq<char>, Seq<char>> {
    if path != callback_path_spec() {
        Err("Spotify returned an unexpected OAuth callback path."@)
    } else if last_value(pairs, "error"@) is Some {
        Err("Spotify authorization couldn't complete: "@ + last_value(pairs, "error"@).unwrap())
    } else if last_value(pairs, "state"@) != Some(expected_state) {
        Err("Spotify authorization state did not match."@)
    } else {
        match last_value(pairs, "code"@) {
            Some(code) => Ok(code),
            None => Err("Spotify authorization returned no code."@),
        }
    }
}

/// The view of a result of strings.
pub open spec fn result_view(r: Result<String, String>) -> Result<Seq<char>, Seq<char>> {
    match r {
        Ok(v) => Ok(v@),
        Err(e) => Err(e@),
    }
}

/// `slot` locates the last pair named `key` among the first `i` of `pv`.
pub open spec fn tracks_last(pv: Seq<(Seq<char>, Seq<char>)>, i: int, key: Seq<char>, slot: Option<
    usize,
>) -> bool {
    match slot {
        Some(j) => j < i && last_value(pv.take(i), key) == Some(pv[j as int].1),
        None => last_value(pv.take(i), key) is None,
    }
}

proof fn lemma_tracks_step(
    pv: Seq<(Seq<char>, Seq<char>)>,
    i: int,
    key: Seq<char>,
    slot: Option<usize>,
)
    requires
        0 <= i < pv.len(),
        i < usize::MAX,
        tracks_last(pv, i, key, slot),
    ensures
        pv[i].0 == key ==> tracks_last(pv, i + 1, key, Some(i as usize)),
        pv[i].0 != key ==> tracks_last(pv, i + 1, key, slot),
{
    assert(pv.take(i + 1).drop_last() =~= pv.take(i));
    assert(pv.take(i + 1).last() == pv[i]);
}

/// Decides the callback from the path and query pairs of its URL.
pub fn callback_outcome(path: &str, pairs: &Vec<(String, String)>, expected_state: &str) -> (r:
    Result<String, String>)
    ensures
        result_view(r) == callback_outcome_spec(path@, pair_views(pairs@), expected_state@),
{
    let ghost pv = pair_views(pairs@);
    let mut code: Option<usize> = None;
    let mut state: Option<usize> = None;
    let mut error: Option<usize> = None;
    let mut i: usize = 0;
    assert(pv.take(0) =~= Seq::<(Seq<char>, Seq<char>)>::empty());
    proof {
        reveal_strlit("code");
        reveal_strlit("state");
        reveal_strlit("error");
        assert("code"@.len() != "state"@.len());
        assert("code"@.len() != "error"@.len());
        assert("state"@[0] != "error"@[0]);
    }
    while i < pairs.len()
        invariant
            i <= pairs@.len(),
            pv == pair_views(pairs@),
            "code"@ != "state"@,
            "code"@ != "error"@,
            "state"@ != "error"@,
            tracks_last(pv, i as int, "code"@, code),
            tracks_last(pv, i as int, "state"@, state),
            tracks_last(pv, i as int, "error"@, error),
        decreases pairs@.len() - i,
    {
        proof {
            lemma_tracks_step(pv, i as int, "code"@, code);
            lemma_tracks_step(pv, i as int, "state"@, state);
            lemma_tracks_step(pv, i as int, "error"@, error);
        }
        let key = pairs[i].0.as_str();
        assert(pv[i as int].0 == key@);
        if str_eq(key, "code") {
            code = Some(i);
        } else if str_eq(key, "state") {
            state = Some(i);
        } else if str_eq(key, "error") {
            error = Some(i);
        }
        i = i + 1;
    }
    assert(pv.take(pairs@.len() as int) =~= pv);
    if !str_eq(path, "/oauth/spotify/callback") {
        return Err("Spotify returned an unexpected OAuth callback path.".to_owned());
    }
    if let Some(j) = error {
        let mut e = "Spotify authorization couldn't complete: ".to_owned();
        e.append(pairs[j].1.as_str());
        return Err(e);
    }
    let state_matches = match state {
        Some(j) => str_eq(pairs[j].1.as_str(), expected_state),
        None => false,
    };
    if !state_matches {
        return Err("Spotify authorization state did not match.".to_owned());
    }
    match code {
        Some(j) => Ok(pairs[j].1.clone()),
        None => Err("Spotify authorization returned no code.".to_owned()),
    }
}

/// How the callback ends for the HTTP request the listener read: the
/// authorization code, or why there is none.
pub open spec fn callback_result_spec(request: Seq<char>, expected_state: Seq<char>) -> Result<
    Seq<char>,
    Seq<char>,
> {
    match request_target_spec(request) {
        None => Err("Invalid OAuth callback request."@),
        Some(target) => match parsed_url("http://127.0.0.1"@ + target) {
            Err(e) => Err("parse OAuth callback: "@ + e),
            Ok(parts) => callback_outcome_spec(parts.0, parts.1, expected_state),
        },
    }
}

/// The page the callback listener sends back for a request: none when the
/// request has no target or its URL does not parse; otherwise the
/// confirmation or the try-again page, as the callback did or did not bring
/// a code.
pub open spec fn callback_page_spec(request: Seq<char>, expected_state: Seq<char>) -> Option<
    Seq<char>,
> {
    match request_target_spec(request) {
        None => None,
        Some(target) => match parsed_url("http://127.0.0.1"@ + target) {
            Err(_) => None,
            Ok(_) => Some(callback_reply_spec(callback_result_spec(request, expected_state) is Ok)),
        },
    }
}

/// Handles the HTTP request that reached the callback listener: how the
/// callback ends, and the page to send back, if any.
pub fn oauth_callback_answer(request: &str, expected_state: &str) -> (r: (
    Result<String, String>,
    Option<String>,
))
    ensures
        result_view(r.0) == callback_result_spec(request@, expected_state@),
        opt_view(r.1) == callback_page_spec(request@, expected_state@),
{
    let target = match request_target(request) {
        Some(t) => t,
        None => {
            return (Err("Invalid OAuth callback request.".to_owned()), None);
        },
    };
    let mut callback_url = "http://127.0.0.1".to_owned();
    callback_url.append(target.as_str());
    match parse_url_parts(callback_url.as_str()) {
        Err(e) => {
            let mut msg = "parse OAuth callback: ".to_owned();
            msg.append(e.as_str());
            (Err(msg), None)
        },
        Ok(parts) => {
            let outcome = callback_outcome(parts.0.as_str(), &parts.1, expected_state);
            let page = callback_reply(outcome.is_ok());
            (outcome, Some(page))
        },
    }
}

/// Reads the authorization code out of the HTTP request that reached the
/// callback listener.
pub fn oauth_callback_result(request: &str, expected_state: &str) -> (r: Result<String, String>)
    ensures
        result_view(r) == callback_result_spec(request@, expected_state@),
{
    oauth_callback_answer(request, expected_state).0
}

/// The callback yields a code only for a request to the callback path whose
/// last `state` parameter is the expected one and which carries no `error`;
/// the code is the value of its last `code` parameter.
pub proof fn lemma_code_needs_matching_state(request: Seq<char>, expected_state: Seq<char>)
    ensures
        callback_result_spec(request, expected_state) matches Ok(code) ==> {
            &&& request_target_spec(request) matches Some(target)
            &&& parsed_url("http://127.0.0.1"@ + target) matches Ok(parts)
            &&& parts.0 == callback_path_spec()
            &&& last_value(parts.1, "error"@) is None
            &&& last_value(parts.1, "state"@) == Some(expected_state)
            &&& last_value(parts.1, "code"@) == Some(code)
        },
{
}

/// The HTML page shown in the browser after the callback.
pub open spec fn callback_html_spec(title: Seq<char>, body: Seq<char>) -> Seq<char> {
    "<!doctype html><html><head><meta charset=\"utf-8\"><title>"@ + title
        + "</title></head><body><main style=\"font-family: system-ui, sans-serif; max-width: 34rem; margin: 4rem auto;\"><h1>"@
        + title + "</h1><p>"@ + body + "</p></main></body></html>"@
}

/// The HTTP response that carries `html`, its length counted in UTF-8 bytes.
pub open spec fn http_ok_response_spec(html: Seq<char>) -> Seq<char> {
    "HTTP/1.1 200 OK\r\nContent-Type: text/html; charset=utf-8\r\nContent-Length: "@ + decimal(
        vstd::utf8::encode_utf8(html).len(),
    ) + "\r\nConnection: close\r\n\r\n"@ + html
}

/// The complete HTTP response of the callback listener: an HTML page with
/// `title` as its title and heading and `body` as its text.
pub fn callback_response(title: &str, body: &str) -> (r: String)
    ensures
        r@ == http_ok_response_spec(callback_html_spec(title@, body@)),
{
    let mut html = "<!doctype html><html><head><meta charset=\"utf-8\"><title>".to_owned();
    html.append(title);
    html.append(
        "</title></head><body><main style=\"font-family: system-ui, sans-serif; max-width: 34rem; margin: 4rem auto;\"><h1>",
    );
    html.append(title);
    html.append("</h1><p>");
    html.append(body);
    html.append("</p></main></body></html>");
    assert(html@ =~= callback_html_spec(title@, body@));
    let length = html.as_str().as_bytes().len();
    let mut r = "HTTP/1.1 200 OK\r\nContent-Type: text/html; charset=utf-8\r\nContent-Length: ".to_owned();
    let digits = decimal_string(length as u64);
    r.append(digits.as_str());
    r.append("\r\nConnection: close\r\n\r\n");
    r.append(html.as_str());
    assert(r@ =~= http_ok_response_spec(callback_html_spec(title@, body@)));
    r
}

/// The page sent back to the browser: a confirmation when the callback
/// brought a code, else an invitation to try again.
pub open spec fn callback_reply_spec(received: bool) -> Seq<char> {
    if received {
        http_ok_response_spec(
            callback_html_spec(
                "Spotify authorization received"@,
                "Return to Buzz to finish connecting Spotify."@,
            ),
        )
    } else {
        http_ok_response_spec(
            callback_html_spec("Spotify connection incomplete"@, "Return to Buzz to try again."@),
        )
    }
}

/// The HTTP response for a callback that did or did not bring a code.
pub fn callback_reply(received: bool) -> (r: String)
    ensures
        r@ == callback_reply_spec(received),
{
    if received {
        callback_response(
            "Spotify authorization received",
            "Return to Buzz to finish connecting Spotify.",
        )
    } else {
        callback_response("Spotify connection incomplete", "Return to Buzz to try again.")
    }
}

/// A hexadecimal digit of either case.
pub open spec fn is_hex_digit(c: char) -> bool {
    ('0' <= c && c <= '9') || ('A' <= c && c <= 'F') || ('a' <= c && c <= 'f')
}

/// The value of a hexadecimal digit.
pub open spec fn hex_value(c: char) -> int {
    if '0' <= c && c <= '9' {
        c as int - 48
    } else if 'A' <= c && c <= 'F' {
        c as int - 55
    } else {
        c as int - 87
    }
}

/// The bytes that form decoding reads from `cs`: `+` is a space, `%` and two
/// hexadecimal digits is the byte they spell, any other character stands for
/// its UTF-8 bytes.
pub open spec fn form_unescape(cs: Seq<char>) -> Seq<u8>
    decreases cs.len(),
{
    if cs.len() == 0 {
        seq![]
    } else if cs[0] == '+' {
        seq![32u8] + form_unescape(cs.drop_first())
    } else if cs[0] == '%' && cs.len() >= 3 && is_hex_digit(cs[1]) && is_hex_digit(cs[2]) {
        seq![(hex_value(cs[1]) * 16 + hex_value(cs[2])) as u8] + form_unescape(cs.skip(3))
    } else {
        vstd::utf8::encode_utf8(seq![cs[0]]) + form_unescape(cs.drop_first())
    }
}

proof fn lemma_hex_upper(v: int)
    requires
        0 <= v < 16,
    ensures
        is_hex_digit(hex_upper(v)),
        hex_value(hex_upper(v)) == v,
        hex_upper(v) != '&',
        hex_upper(v) != '=',
{
}

proof fn lemma_form_byte(b: u8, t: Seq<char>)
    ensures
        form_unescape(form_byte(b) + t) == seq![b] + form_unescape(t),
        forall|k: int| 0 <= k < form_byte(b).len() ==> #[trigger] form_byte(b)[k] != '&' && form_byte(b)[k] != '=',
{
    let x = form_byte(b) + t;
    if is_form_unchanged(b) {
        let c = b as char;
        assert(x[0] == c);
        assert(x.drop_first() =~= t);
        vstd::utf8::is_ascii_chars_encode_utf8(seq![c]);
        assert(vstd::utf8::encode_utf8(seq![c]) =~= seq![b]);
    } else if b == 32 {
        assert(x.drop_first() =~= t);
    } else {
        lemma_hex_upper(b as int / 16);
        lemma_hex_upper(b as int % 16);
        assert(x.skip(3) =~= t);
        assert(x[1] == hex_upper(b as int / 16));
        assert(x[2] == hex_upper(b as int % 16));
    }
}

/// Form decoding undoes form serialization.
pub proof fn lemma_form_unescape_serialize(bytes: Seq<u8>)
    ensures
        form_unescape(form_serialize(bytes)) == bytes,
        forall|k: int|
            0 <= k < form_serialize(bytes).len() ==> #[trigger] form_serialize(bytes)[k] != '&'
                && form_serialize(bytes)[k] != '=',
    decreases bytes.len(),
{
    if bytes.len() > 0 {
        lemma_form_unescape_serialize(bytes.drop_first());
        lemma_form_byte(bytes[0], form_serialize(bytes.drop_first()));
        assert(seq![bytes[0]] + bytes.drop_first() =~= bytes);
        let f = form_byte(bytes[0]);
        let r = form_serialize(bytes.drop_first());
        assert forall|k: int| 0 <= k < form_serialize(bytes).len() implies #[trigger] form_serialize(
            bytes,
        )[k] != '&' && form_serialize(bytes)[k] != '=' by {
            if k < f.len() {
                assert(form_serialize(bytes)[k] == f[k]);
            } else {
                assert(form_serialize(bytes)[k] == r[k - f.len()]);
            }
        }
    } else {
        assert(form_serialize(bytes) =~= Seq::<char>::empty());
    }
}

/// The pieces of `cs` between `&` separators, empty ones included.
pub open spec fn split_amp(cs: Seq<char>) -> Seq<Seq<char>>
    decreases cs.len(),
{
    if cs.len() == 0 {
        seq![seq![]]
    } else {
        let s = split_amp(cs.drop_last());
        if cs.last() == '&' {
            s.push(seq![])
        } else {
            s.update(s.len() - 1, s.last().push(cs.last()))
        }
    }
}

/// The text of `cs` before its first `=`.
pub open spec fn before_eq(cs: Seq<char>) -> Seq<char>
    decreases cs.len(),
{
    if cs.len() == 0 || cs[0] == '=' {
        seq![]
    } else {
        seq![cs[0]] + before_eq(cs.drop_first())
    }
}

/// The text of `cs` after its first `=`; empty if it has none.
pub open spec fn after_eq(cs: Seq<char>) -> Seq<char>
    decreases cs.len(),
{
    if cs.len() == 0 {
        seq![]
    } else if cs[0] == '=' {
        cs.drop_first()
    } else {
        after_eq(cs.drop_first())
    }
}

/// The name and value bytes of one non-empty piece of a query.
pub open spec fn parse_piece(piece: Seq<char>) -> (Seq<u8>, Seq<u8>) {
    (form_unescape(before_eq(piece)), form_unescape(after_eq(piece)))
}

/// The pairs that form parsing reads from a query string: the non-empty
/// pieces between `&`, each cut at its first `=`, both sides decoded. This
/// is this library's statement of the rules that the url crate's
/// `form_urlencoded::parse` follows.
pub open spec fn form_parse(query: Seq<char>) -> Seq<(Seq<u8>, Seq<u8>)> {
    split_amp(query).filter(|piece: Seq<char>| piece.len() > 0).map_values(
        |piece: Seq<char>| parse_piece(piece),
    )
}

proof fn lemma_split_amp_len(cs: Seq<char>)
    ensures
        split_amp(cs).len() >= 1,
    decreases cs.len(),
{
    if cs.len() > 0 {
        lemma_split_amp_len(cs.drop_last());
    }
}

proof fn lemma_split_amp_extend(a: Seq<char>, b: Seq<char>)
    requires
        forall|k: int| 0 <= k < b.len() ==> #[trigger] b[k] != '&',
    ensures
        split_amp(a + b) == split_amp(a).update(
            split_amp(a).len() - 1,
            split_amp(a).last() + b,
        ),
    decreases b.len(),
{
    lemma_split_amp_len(a);
    if b.len() == 0 {
        assert(a + b =~= a);
        assert(split_amp(a).last() + b =~= split_amp(a).last());
        assert(split_amp(a).update(split_amp(a).len() - 1, split_amp(a).last()) =~= split_amp(a));
    } else {
        let b0 = b.drop_last();
        lemma_split_amp_extend(a, b0);
        assert((a + b).drop_last() =~= a + b0);
        assert((a + b).last() == b.last());
        let s = split_amp(a);
        assert((s.last() + b0).push(b.last()) =~= s.last() + b);
        assert(split_amp(a + b) =~= s.update(s.len() - 1, s.last() + b));
    }
}

proof fn lemma_before_after_eq(x: Seq<char>, y: Seq<char>)
    requires
        forall|k: int| 0 <= k < x.len() ==> #[trigger] x[k] != '=',
    ensures
        before_eq(x + seq!['='] + y) == x,
        after_eq(x + seq!['='] + y) == y,
    decreases x.len(),
{
    let z = x + seq!['='] + y;
    if x.len() == 0 {
        assert(z[0] == '=');
        assert(z.drop_first() =~= y);
    } else {
        let x0 = x.drop_first();
        lemma_before_after_eq(x0, y);
        assert(z.drop_first() =~= x0 + seq!['='] + y);
        assert(seq![x[0]] + x0 =~= x);
    }
}

proof fn lemma_form_pair_parts(p: (Seq<char>, Seq<char>))
    ensures
        parse_piece(form_pair(p)) == (vstd::utf8::encode_utf8(p.0), vstd::utf8::encode_utf8(p.1)),
        form_pair(p).len() > 0,
        forall|k: int| 0 <= k < form_pair(p).len() ==> #[trigger] form_pair(p)[k] != '&',
{
    let k = form_encode(p.0);
    let v = form_encode(p.1);
    lemma_form_unescape_serialize(vstd::utf8::encode_utf8(p.0));
    lemma_form_unescape_serialize(vstd::utf8::encode_utf8(p.1));
    lemma_before_after_eq(k, v);
    let f = form_pair(p);
    assert(f[k.len() as int] == '=');
    assert forall|j: int| 0 <= j < f.len() implies #[trigger] f[j] != '&' by {
        if j < k.len() {
            assert(f[j] == k[j]);
        } else if j > k.len() {
            assert(f[j] == v[j - k.len() - 1]);
        }
    }
}

proof fn lemma_split_form_query(pairs: Seq<(Seq<char>, Seq<char>)>)
    requires
        pairs.len() > 0,
    ensures
        split_amp(form_query(pairs)) == pairs.map_values(|p: (Seq<char>, Seq<char>)| form_pair(p)),
    decreases pairs.len(),
{
    let last = form_pair(pairs.last());
    lemma_form_pair_parts(pairs.last());
    if pairs.len() == 1 {
        lemma_split_amp_extend(seq![], last);
        assert(seq![] + last =~= last);
        assert(form_query(pairs) == form_pair(pairs[0]));
        assert(split_amp(Seq::<char>::empty()) == seq![Seq::<char>::empty()]);
        assert(Seq::<char>::empty() + last =~= last);
        assert(pairs.map_values(|p: (Seq<char>, Seq<char>)| form_pair(p)) =~= seq![last]);
    } else {
        let front = pairs.drop_last();
        lemma_split_form_query(front);
        let q = form_query(front);
        let qa = q.push('&');
        assert(qa.drop_last() =~= q);
        assert(split_amp(qa) == split_amp(q).push(seq![]));
        lemma_split_amp_extend(qa, last);
        assert(form_query(pairs) =~= qa + last);
        assert(Seq::<char>::empty() + last =~= last);
        assert(pairs.map_values(|p: (Seq<char>, Seq<char>)| form_pair(p)) =~= front.map_values(
            |p: (Seq<char>, Seq<char>)| form_pair(p),
        ).push(last));
        assert(split_amp(form_query(pairs)) =~= split_amp(q).push(last));
    }
}

/// The UTF-8 bytes of each side of each pair.
pub open spec fn pair_bytes(pairs: Seq<(Seq<char>, Seq<char>)>) -> Seq<(Seq<u8>, Seq<u8>)> {
    pairs.map_values(
        |p: (Seq<char>, Seq<char>)| (vstd::utf8::encode_utf8(p.0), vstd::utf8::encode_utf8(p.1)),
    )
}

proof fn lemma_parse_pieces(pairs: Seq<(Seq<char>, Seq<char>)>)
    ensures
        pairs.map_values(|p: (Seq<char>, Seq<char>)| form_pair(p)).filter(
            |piece: Seq<char>| piece.len() > 0,
        ).map_values(|piece: Seq<char>| parse_piece(piece)) == pair_bytes(pairs),
    decreases pairs.len(),
{
    let pred = |piece: Seq<char>| piece.len() > 0;
    let pieces = pairs.map_values(|p: (Seq<char>, Seq<char>)| form_pair(p));
    if pairs.len() == 0 {
        reveal_with_fuel(Seq::<_>::filter, 1);
        assert(pieces =~= Seq::<Seq<char>>::empty());
        assert(pieces.filter(pred) =~= Seq::<Seq<char>>::empty());
        assert(pieces.filter(pred).map_values(|piece: Seq<char>| parse_piece(piece))
            =~= pair_bytes(pairs));
    } else {
        let front = pairs.drop_last();
        lemma_parse_pieces(front);
        lemma_form_pair_parts(pairs.last());
        let front_pieces = front.map_values(|p: (Seq<char>, Seq<char>)| form_pair(p));
        assert(pieces =~= front_pieces.push(form_pair(pairs.last())));
        front_pieces.lemma_filter_push(form_pair(pairs.last()), pred);
        assert(pieces.filter(pred) == front_pieces.filter(pred).push(form_pair(pairs.last())));
        assert(pieces.filter(pred).map_values(|piece: Seq<char>| parse_piece(piece))
            =~= front_pieces.filter(pred).map_values(|piece: Seq<char>| parse_piece(piece)).push(
            parse_piece(form_pair(pairs.last())),
        ));
        assert(pair_bytes(pairs) =~= pair_bytes(front).push(
            (vstd::utf8::encode_utf8(pairs.last().0), vstd::utf8::encode_utf8(pairs.last().1)),
        ));
    }
}

/// Reading back a query that `form_query_string` writes, under the form
/// parsing rules that `form_parse` states (which follow the url crate's
/// `form_urlencoded::parse` as its source reads; nothing here ties the two),
/// gives exactly the pairs written, in order: as bytes, the UTF-8 encoding of
/// each name and value; decoded from UTF-8, the names and values themselves.
/// This holds of the query of every authorization URL.
pub proof fn lemma_form_query_reads_back(pairs: Seq<(Seq<char>, Seq<char>)>)
    ensures
        form_parse(form_query(pairs)) == pair_bytes(pairs),
        form_parse(form_query(pairs)).map_values(
            |b: (Seq<u8>, Seq<u8>)| (vstd::utf8::decode_utf8(b.0), vstd::utf8::decode_utf8(b.1)),
        ) == pairs,
{
    if pairs.len() == 0 {
        reveal_with_fuel(Seq::<_>::filter, 2);
        assert(form_query(pairs) =~= Seq::<char>::empty());
        assert(split_amp(form_query(pairs)) == seq![Seq::<char>::empty()]);
        let pred = |piece: Seq<char>| piece.len() > 0;
        Seq::<Seq<char>>::empty().lemma_filter_push(Seq::<char>::empty(), pred);
        assert(seq![Seq::<char>::empty()] =~= Seq::<Seq<char>>::empty().push(Seq::<char>::empty()));
        assert(Seq::<Seq<char>>::empty().filter(pred) =~= Seq::<Seq<char>>::empty());
        assert(form_parse(form_query(pairs)) =~= pair_bytes(pairs));
    } else {
        lemma_split_form_query(pairs);
        lemma_parse_pieces(pairs);
    }
    let back = form_parse(form_query(pairs)).map_values(
        |b: (Seq<u8>, Seq<u8>)| (vstd::utf8::decode_utf8(b.0), vstd::utf8::decode_utf8(b.1)),
    );
    assert forall|k: int| 0 <= k < pairs.len() implies #[trigger] back[k] == pairs[k] by {
        vstd::utf8::encode_utf8_decode_utf8(pairs[k].0);
        vstd::utf8::encode_utf8_decode_utf8(pairs[k].1);
    }
    assert(back =~= pairs);
}

/// An HTTP request line `method target version`, ended by CRLF, has
/// `target` as its request target, whatever follows it.
pub proof fn lemma_request_line_target(
    method: Seq<char>,
    target: Seq<char>,
    version: Seq<char>,
    rest: Seq<char>,
)
    requires
        is_clean_word(method),
        is_clean_word(target),
        is_clean_word(version),
    ensures
        request_target_spec(method + seq![' '] + target + seq![' '] + version + seq!['\r', '\n'] + rest)
            == Some(target),
{
    let line = method + seq![' '] + target + seq![' '] + version;
    let request = line + seq!['\r', '\n'] + rest;
    assert(request =~= method + seq![' '] + target + seq![' '] + version + seq!['\r', '\n'] + rest);
    let ws = seq![method, target, version];
    assert(ws.drop_first().drop_first() =~= seq![version]);
    assert(ws.drop_first() =~= seq![target, version]);
    assert(join_with_spaces(seq![version]) == version);
    assert(join_with_spaces(seq![target, version]) =~= target + seq![' '] + version);
    assert(join_with_spaces(ws) =~= line);
    assert forall|k: int| 0 <= k < ws.len() implies is_clean_word(#[trigger] ws[k]) by {}
    lemma_words_join(ws);
    let n: int = line.len() as int + 1;
    assert forall|k: int| 0 <= k < n implies #[trigger] request[k] != '\n' by {
        if k < method.len() {
            assert(request[k] == method[k]);
            assert(!is_ws(method[k]));
        } else if k == method.len() {
        } else if k < method.len() + 1 + target.len() {
            assert(request[k] == target[k - method.len() - 1]);
            assert(!is_ws(target[k - method.len() - 1]));
        } else if k == method.len() + 1 + target.len() {
        } else if k < line.len() {
            assert(request[k] == version[k - method.len() - 2 - target.len()]);
            assert(!is_ws(version[k - method.len() - 2 - target.len()]));
        } else {
            assert(request[k] == '\r');
        }
    }
    lemma_before_newline(request, n);
    let after = request.skip(n);
    assert(after[0] == '\n');
    assert(before_newline(after) =~= Seq::<char>::empty());
    assert(request.take(n) =~= line.push('\r'));
    assert(before_newline(request) =~= line.push('\r'));
    assert(line.push('\r').drop_last() =~= line);
}

/// `c` is the last index of `pairs` whose name is `key`.
pub open spec fn is_last_named(pairs: Seq<(Seq<char>, Seq<char>)>, key: Seq<char>, c: int) -> bool {
    0 <= c < pairs.len() && pairs[c].0 == key && forall|k: int| c < k < pairs.len() ==> #[trigger] pairs[k].0 != key
}

proof fn lemma_last_value_at(pairs: Seq<(Seq<char>, Seq<char>)>, key: Seq<char>, c: int)
    requires
        is_last_named(pairs, key, c),
    ensures
        last_value(pairs, key) == Some(pairs[c].1),
    decreases pairs.len(),
{
    if c < pairs.len() - 1 {
        let front = pairs.drop_last();
        assert(pairs.last().0 != key);
        assert forall|k: int| c < k < front.len() implies #[trigger] front[k].0 != key by {
            assert(front[k] == pairs[k]);
        }
        lemma_last_value_at(front, key, c);
    }
}

proof fn lemma_last_value_absent(pairs: Seq<(Seq<char>, Seq<char>)>, key: Seq<char>)
    requires
        forall|k: int| 0 <= k < pairs.len() ==> #[trigger] pairs[k].0 != key,
    ensures
        last_value(pairs, key) is None,
    decreases pairs.len(),
{
    if pairs.len() > 0 {
        let front = pairs.drop_last();
        assert(pairs[pairs.len() - 1].0 != key);
        assert forall|k: int| 0 <= k < front.len() implies #[trigger] front[k].0 != key by {
            assert(front[k] == pairs[k]);
        }
        lemma_last_value_absent(front, key);
    }
}

/// A callback request to `/oauth/spotify/callback` that carries no `error`
/// parameter, whose last `state` is the expected one and which has a `code`
/// is accepted, whatever the code: the result is the value of its last
/// `code` parameter.
pub proof fn lemma_callback_accepts_code(
    method: Seq<char>,
    target: Seq<char>,
    version: Seq<char>,
    rest: Seq<char>,
    expected_state: Seq<char>,
    pairs: Seq<(Seq<char>, Seq<char>)>,
    s: int,
    c: int,
)
    requires
        is_clean_word(method),
        is_clean_word(target),
        is_clean_word(version),
        parsed_url("http://127.0.0.1"@ + target) == Ok::<_, Seq<char>>(
            ("/oauth/spotify/callback"@, pairs),
        ),
        forall|k: int| 0 <= k < pairs.len() ==> #[trigger] pairs[k].0 != "error"@,
        is_last_named(pairs, "state"@, s),
        pairs[s].1 == expected_state,
        is_last_named(pairs, "code"@, c),
    ensures
        callback_result_spec(
            method + seq![' '] + target + seq![' '] + version + seq!['\r', '\n'] + rest,
            expected_state,
        ) == Ok::<Seq<char>, Seq<char>>(pairs[c].1),
{
    lemma_request_line_target(method, target, version, rest);
    lemma_last_value_absent(pairs, "error"@);
    lemma_last_value_at(pairs, "state"@, s);
    lemma_last_value_at(pairs, "code"@, c);
}

} // verus!

//! Random tokens of the OAuth flow and the PKCE challenge derived from the
//! code verifier.
use vstd::prelude::*;
use vstd::string::StringSliceAdditionalSpecFns;

use base64::Engine;
use sha2::Digest;

verus! {

/// A lower-case hexadecimal digit.
pub open spec fn is_hex_lower(c: char) -> bool {
    ('0' <= c && c <= '9') || ('a' <= c && c <= 'f')
}

/// The RFC 4122 variant digit of a UUID: one of `8`, `9`, `a`, `b`.
pub open spec fn is_variant_digit(c: char) -> bool {
    c == '8' || c == '9' || c == 'a' || c == 'b'
}

/// A version-4 UUID in its simple form: 32 lower-case hexadecimal digits,
/// the version digit `4` at 12 and the variant digit at 16.
pub open spec fn is_uuid_v4_simple(s: Seq<char>) -> bool {
    &&& s.len() == 32
    &&& forall|k: int| 0 <= k < 32 ==> is_hex_lower(#[trigger] s[k])
    &&& s[12] == '4'
    &&& is_variant_digit(s[16])
}

/// A version-4 UUID in its hyphenated form `xxxxxxxx-xxxx-4xxx-vxxx-xxxxxxxxxxxx`.
pub open spec fn is_uuid_v4_hyphenated(s: Seq<char>) -> bool {
    &&& s.len() == 36
    &&& forall|k: int|
        0 <= k < 36 ==> if k == 8 || k == 13 || k == 18 || k == 23 {
            #[trigger] s[k] == '-'
        } else {
            is_hex_lower(s[k])
        }
    &&& s[14] == '4'
    &&& is_variant_digit(s[19])
}

/// A fresh random UUID in simple form, `Uuid::new_v4().simple()` written out.
/// Its digits are random: only their format is stated.
#[verifier::external_body]
fn new_uuid_simple() -> (s: String)
    ensures
        is_uuid_v4_simple(s@),
{
    uuid::Uuid::new_v4().simple().to_string()
}

/// A fresh random UUID in hyphenated form, `Uuid::new_v4()` written out.
/// Its digits are random: only their format is stated.
#[verifier::external_body]
pub(crate) fn new_uuid_hyphenated() -> (s: String)
    ensures
        is_uuid_v4_hyphenated(s@),
{
    uuid::Uuid::new_v4().to_string()
}

/// A character that RFC 7636 allows in a code verifier (its `unreserved` set).
pub open spec fn is_unreserved(c: char) -> bool {
    ('A' <= c && c <= 'Z') || ('a' <= c && c <= 'z') || ('0' <= c && c <= '9') || c == '-' || c
        == '.' || c == '_' || c == '~'
}

/// A PKCE code verifier as RFC 7636 defines it: 43 to 128 unreserved characters.
pub open spec fn is_code_verifier(s: Seq<char>) -> bool {
    43 <= s.len() <= 128 && forall|k: int| 0 <= k < s.len() ==> is_unreserved(#[trigger] s[k])
}

/// `s` is `n` random simple-form UUIDs written one after the other.
pub open spec fn is_uuid_chain(s: Seq<char>, n: nat) -> bool {
    &&& s.len() == 32 * n
    &&& forall|j: int| 0 <= j < n ==> #[trigger] is_uuid_v4_simple(s.subrange(32 * j, 32 * j + 32))
}

proof fn lemma_uuid_chain_push(a: Seq<char>, b: Seq<char>, n: nat)
    requires
        is_uuid_chain(a, n),
        is_uuid_v4_simple(b),
    ensures
        is_uuid_chain(a + b, n + 1),
        forall|k: int| 0 <= k < (a + b).len() ==> is_hex_lower(#[trigger] (a + b)[k]),
    decreases n,
{
    let s = a + b;
    assert forall|j: int| 0 <= j < n + 1 implies #[trigger] is_uuid_v4_simple(
        s.subrange(32 * j, 32 * j + 32),
    ) by {
        if j < n {
            assert(s.subrange(32 * j, 32 * j + 32) =~= a.subrange(32 * j, 32 * j + 32));
        } else {
            assert(s.subrange(32 * j, 32 * j + 32) =~= b);
        }
    }
    assert forall|k: int| 0 <= k < s.len() implies is_hex_lower(#[trigger] s[k]) by {
        let j = k / 32;
        assert(0 <= j < n + 1);
        let chunk = s.subrange(32 * j, 32 * j + 32);
        assert(is_uuid_v4_simple(chunk));
        assert(chunk[k - 32 * j] == s[k]);
    }
}

/// Random text made of `n` fresh simple-form UUIDs.
fn uuid_chain(n: usize) -> (r: String)
    requires
        n <= 4,
    ensures
        is_uuid_chain(r@, n as nat),
        forall|k: int| 0 <= k < r@.len() ==> is_hex_lower(#[trigger] r@[k]),
{
    let mut r = String::new();
    let mut i: usize = 0;
    while i < n
        invariant
            i <= n,
            n <= 4,
            is_uuid_chain(r@, i as nat),
            forall|k: int| 0 <= k < r@.len() ==> is_hex_lower(#[trigger] r@[k]),
        decreases n - i,
    {
        let u = new_uuid_simple();
        proof {
            lemma_uuid_chain_push(r@, u@, i as nat);
        }
        r.append(u.as_str());
        i = i + 1;
    }
    r
}

/// A fresh PKCE code verifier: three random UUIDs in simple form, joined.
pub fn pkce_verifier() -> (r: String)
    ensures
        is_uuid_chain(r@, 3),
        is_code_verifier(r@),
{
    uuid_chain(3)
}

/// A fresh OAuth `state` value: two random UUIDs in simple form, joined.
pub fn oauth_state() -> (r: String)
    ensures
        is_uuid_chain(r@, 2),
        forall|k: int| 0 <= k < r@.len() ==> is_hex_lower(#[trigger] r@[k]),
{
    uuid_chain(2)
}

/// The SHA-256 digest of `data`.
pub uninterp spec fn sha256(data: Seq<u8>) -> Seq<u8>;

/// `Sha256::digest` of `data`: its result is named `sha256`, and is 32 bytes long.
#[verifier::external_body]
fn sha256_digest(data: &[u8]) -> (r: Vec<u8>)
    ensures
        r@ == sha256(data@),
        r@.len() == 32,
{
    sha2::Sha256::digest(data).to_vec()
}

/// The character for the 6-bit value `v` in the URL-safe base64 alphabet
/// `A-Z a-z 0-9 - _`.
pub open spec fn base64url_char(v: int) -> char {
    if v < 26 {
        (65 + v) as char
    } else if v < 52 {
        (97 + (v - 26)) as char
    } else if v < 62 {
        (48 + (v - 52)) as char
    } else if v == 62 {
        '-'
    } else {
        '_'
    }
}

/// Base64 of `b` in the URL-safe alphabet without padding: each group of
/// three bytes gives four characters, a final one or two bytes give two or
/// three.
pub open spec fn base64url_nopad(b: Seq<u8>) -> Seq<char>
    decreases b.len(),
{
    if b.len() == 0 {
        seq![]
    } else if b.len() == 1 {
        seq![base64url_char(b[0] as int / 4), base64url_char((b[0] as int % 4) * 16)]
    } else if b.len() == 2 {
        seq![
            base64url_char(b[0] as int / 4),
            base64url_char((b[0] as int % 4) * 16 + b[1] as int / 16),
            base64url_char((b[1] as int % 16) * 4),
        ]
    } else {
        seq![
            base64url_char(b[0] as int / 4),
            base64url_char((b[0] as int % 4) * 16 + b[1] as int / 16),
            base64url_char((b[1] as int % 16) * 4 + b[2] as int / 64),
            base64url_char(b[2] as int % 64),
        ] + base64url_nopad(b.skip(3))
    }
}

/// `URL_SAFE_NO_PAD.encode(data)` of the base64 crate: base64 in the URL-safe
/// alphabet, without padding.
#[verifier::external_body]
fn base64url_encode(data: &[u8]) -> (r: String)
    requires
        data@.len() <= usize::MAX / 4,
    ensures
        r@ == base64url_nopad(data@),
{
    base64::engine::general_purpose::URL_SAFE_NO_PAD.encode(data)
}

/// A character of the URL-safe base64 alphabet.
pub open spec fn is_base64url_char(c: char) -> bool {
    ('A' <= c && c <= 'Z') || ('a' <= c && c <= 'z') || ('0' <= c && c <= '9') || c == '-' || c
        == '_'
}

proof fn lemma_base64url_shape(b: Seq<u8>)
    ensures
        base64url_nopad(b).len() == 4 * (b.len() / 3) + (if b.len() % 3 == 0 {
            0int
        } else {
            (b.len() % 3 + 1) as int
        }),
        forall|k: int|
            0 <= k < base64url_nopad(b).len() ==> is_base64url_char(#[trigger] base64url_nopad(b)[k]),
    decreases b.len(),
{
    let e = base64url_nopad(b);
    if b.len() >= 3 {
        lemma_base64url_shape(b.skip(3));
        let rest = base64url_nopad(b.skip(3));
        assert forall|k: int| 0 <= k < e.len() implies is_base64url_char(#[trigger] e[k]) by {
            if k >= 4 {
                assert(e[k] == rest[k - 4]);
            }
        }
    }
}

/// The PKCE challenge of a code verifier: the SHA-256 digest of its UTF-8
/// bytes in URL-safe base64 without padding (the `S256` method).
pub fn pkce_challenge(verifier: &str) -> (r: String)
    ensures
        r@ == base64url_nopad(sha256(verifier.spec_bytes())),
        r@.len() == 43,
        forall|k: int| 0 <= k < r@.len() ==> is_base64url_char(#[trigger] r@[k]),
{
    let digest = sha256_digest(verifier.as_bytes());
    proof {
        lemma_base64url_shape(digest@);
    }
    base64url_encode(digest.as_slice())
}

} // verus!

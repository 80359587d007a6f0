use buzz_desktop::pkce::{oauth_state, pkce_challenge, pkce_verifier};

fn is_lower_hex(s: &str) -> bool {
    s.chars().all(|c| c.is_ascii_digit() || ('a'..='f').contains(&c))
}

#[test]
fn challenge_of_rfc7636_example() {
    assert_eq!(
        pkce_challenge("dBjftJeZ4CVP-mB92K27uhbUJU1p1r_wW1gFWFOEjXk"),
        "E9Melhoa2OwvFrEMTJguCHaoeK1t8URWbuGJSstw-cM"
    );
}

#[test]
fn challenge_of_empty_verifier() {
    // SHA-256 of nothing, in URL-safe base64 without padding.
    assert_eq!(pkce_challenge(""), "47DEQpj8HBSa-_TImW-5JCeuQeRkm5NMpJWZG3hSuFU");
}

#[test]
fn verifier_is_three_uuids() {
    let v = pkce_verifier();
    assert_eq!(v.len(), 96);
    assert!(is_lower_hex(&v));
    for k in 0..3 {
        let chunk = &v[32 * k..32 * k + 32];
        assert_eq!(&chunk[12..13], "4");
        assert!("89ab".contains(&chunk[16..17]));
    }
    assert_ne!(pkce_verifier(), v);
    let c = pkce_challenge(&v);
    assert_eq!(c.len(), 43);
}

#[test]
fn state_is_two_uuids() {
    let s = oauth_state();
    assert_eq!(s.len(), 64);
    assert!(is_lower_hex(&s));
    assert_eq!(&s[12..13], "4");
    assert_eq!(&s[44..45], "4");
}

use base64::engine::general_purpose::URL_SAFE_NO_PAD;
use base64::Engine;
use stampffabrik::token::{
    issue, validate, ConfigurationError, JWTClaims, SigningKey, TokenError, JWT_HEADER, SESSION_TOKEN_TTL,
};

fn key(secret: &str) -> SigningKey {
    SigningKey::from_secret(secret.as_bytes().to_vec()).unwrap()
}

#[test]
fn empty_secret_is_a_configuration_error() {
    assert!(matches!(SigningKey::from_secret(Vec::new()), Err(ConfigurationError::MissingSecret)));
}

#[test]
fn header_is_the_standard_hs256_header() {
    assert_eq!(URL_SAFE_NO_PAD.decode(JWT_HEADER).unwrap(), br#"{"typ":"JWT","alg":"HS256"}"#.to_vec());
}

#[test]
fn token_has_encoded_claims_and_signature() {
    let k = key("secret");
    let token = issue(&k, "user-1", 1000, 3600);
    let parts: Vec<&str> = token.split('.').collect();
    assert_eq!(parts.len(), 3);
    assert_eq!(parts[0], JWT_HEADER);
    assert_eq!(URL_SAFE_NO_PAD.decode(parts[1]).unwrap(), br#"{"sub":"user-1","exp":4600,"iat":1000}"#.to_vec());
    let message = format!("{}.{}", parts[0], parts[1]);
    let expected = jsonwebtoken::crypto::sign(
        message.as_bytes(),
        &jsonwebtoken::EncodingKey::from_secret(b"secret"),
        jsonwebtoken::Algorithm::HS256,
    )
    .unwrap();
    assert_eq!(parts[2], expected);
    assert_ne!(parts[2], message);
}

#[test]
fn issuing_is_deterministic() {
    let k = key("secret");
    assert_eq!(issue(&k, "u", 5, 10), issue(&k, "u", 5, 10));
}

#[test]
fn token_valid_until_expiry() {
    let k = key("secret");
    let t0 = 1_700_000_000;
    let token = issue(&k, "subject", t0, SESSION_TOKEN_TTL);
    let claims = JWTClaims { sub: String::from("subject"), exp: t0 + 3600, iat: t0 };
    assert_eq!(validate(&k, &token, t0), Ok(claims.clone()));
    assert_eq!(validate(&k, &token, t0 + 3599), Ok(claims.clone()));
    assert_eq!(validate(&k, &token, 0), Ok(claims));
    assert_eq!(validate(&k, &token, t0 + 3600), Err(TokenError::TokenExpired));
    assert_eq!(validate(&k, &token, t0 + 100_000), Err(TokenError::TokenExpired));
}

#[test]
fn subject_with_special_characters_survives() {
    let k = key("secret");
    let sub = "a\"b\\c\n\u{7}ü漢";
    let token = issue(&k, sub, 10, 20);
    assert_eq!(validate(&k, &token, 11).unwrap().sub, sub);
}

#[test]
fn flipped_bits_never_validate() {
    let k = key("secret");
    let token = issue(&k, "subject", 1000, 3600);
    let bytes = token.as_bytes();
    for i in 0..bytes.len() {
        for bit in 0..7 {
            let mut altered = bytes.to_vec();
            altered[i] ^= 1 << bit;
            let Ok(text) = String::from_utf8(altered) else { continue };
            let r = validate(&k, &text, 1500);
            assert!(
                matches!(r, Err(TokenError::InvalidSignature) | Err(TokenError::Malformed)),
                "byte {} bit {}",
                i,
                bit
            );
        }
    }
}

#[test]
fn other_key_gives_invalid_signature() {
    let token = issue(&key("one"), "subject", 1000, 3600);
    assert_eq!(validate(&key("two"), &token, 1500), Err(TokenError::InvalidSignature));
}

#[test]
fn malformed_tokens() {
    let k = key("secret");
    assert_eq!(validate(&k, "", 0), Err(TokenError::Malformed));
    assert_eq!(validate(&k, "abc", 0), Err(TokenError::Malformed));
    assert_eq!(validate(&k, "a.b", 0), Err(TokenError::Malformed));
    assert_eq!(validate(&k, "a.b.c.d", 0), Err(TokenError::Malformed));
    assert_eq!(validate(&k, "a.b.c", 0), Err(TokenError::InvalidSignature));
}

#[test]
fn signed_token_with_bad_payload_is_malformed() {
    let message = format!("{}.{}", JWT_HEADER, URL_SAFE_NO_PAD.encode(b"{\"sub\":1}"));
    let sig = jsonwebtoken::crypto::sign(
        message.as_bytes(),
        &jsonwebtoken::EncodingKey::from_secret(b"secret"),
        jsonwebtoken::Algorithm::HS256,
    )
    .unwrap();
    let token = format!("{}.{}", message, sig);
    assert_eq!(validate(&key("secret"), &token, 0), Err(TokenError::Malformed));
}

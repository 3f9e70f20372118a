//! Signed session tokens: `header.payload.signature`, where the payload is
//! the URL-safe base64 of the claim set's JSON text and the signature is the
//! HMAC-SHA256 of `header.payload` under the server's secret.

use crate::claims::{claims_bytes, parse_claims, utf8_to_string, write_claims};
use base64::engine::general_purpose::URL_SAFE_NO_PAD;
use base64::Engine;
use jsonwebtoken::{crypto, Algorithm, DecodingKey, EncodingKey};
use vstd::prelude::*;
use vstd::utf8::{decode_utf8, decode_utf8_encode_utf8, encode_utf8, encode_utf8_decode_utf8, encode_utf8_valid_utf8, valid_utf8};

verus! {

#[verifier::external_type_specification]
#[verifier::external_body]
pub struct ExJwtError(jsonwebtoken::errors::Error);

/// URL-safe base64 without padding, of `b`.
pub uninterp spec fn b64url_of(b: Seq<u8>) -> Seq<char>;

/// The HMAC-SHA256 of the UTF-8 bytes of `msg` under `secret`, in URL-safe
/// base64 without padding.
pub uninterp spec fn hs256_of(secret: Seq<u8>, msg: Seq<char>) -> Seq<char>;

pub open spec fn url_safe_char(c: char) -> bool {
    ('A' <= c && c <= 'Z') || ('a' <= c && c <= 'z') || ('0' <= c && c <= '9') || c == '-' || c == '_'
}

/// Only characters of the URL-safe base64 alphabet.
pub open spec fn url_safe(s: Seq<char>) -> bool {
    forall|i: int| 0 <= i < s.len() ==> url_safe_char(#[trigger] s[i])
}

pub open spec fn no_dot(s: Seq<char>) -> bool {
    forall|i: int| 0 <= i < s.len() ==> #[trigger] s[i] != '.'
}

/// Relies on base64's `URL_SAFE_NO_PAD.encode`: the URL-safe alphabet,
/// no padding.
#[verifier::external_body]
fn b64url_encode(b: &[u8]) -> (r: String)
    ensures
        r@ == b64url_of(b@),
        url_safe(r@),
{
    URL_SAFE_NO_PAD.encode(b)
}

/// Relies on base64's `URL_SAFE_NO_PAD.decode`: it rejects padding and
/// non-zero trailing bits, so it accepts exactly the texts that the
/// encoder writes, and gives back what was encoded.
#[verifier::external_body]
fn b64url_decode(s: &str) -> (r: Option<Vec<u8>>)
    ensures
        r matches Some(v) ==> b64url_of(v@) == s@,
        forall|v: Seq<u8>| #[trigger] b64url_of(v) == s@ ==> r is Some && r->0@ == v,
{
    URL_SAFE_NO_PAD.decode(s).ok()
}

/// Relies on `jsonwebtoken::crypto::sign` with HS256, which for the HMAC
/// family never fails and returns the MAC in URL-safe base64.
#[verifier::external_body]
fn hs256_sign(secret: &[u8], msg: &str) -> (r: Result<String, jsonwebtoken::errors::Error>)
    ensures
        r is Ok,
        r matches Ok(s) ==> s@ == hs256_of(secret@, msg@),
        r matches Ok(s) ==> url_safe(s@),
{
    crypto::sign(msg.as_bytes(), &EncodingKey::from_secret(secret), Algorithm::HS256)
}

/// Relies on `jsonwebtoken::crypto::verify` with HS256, which re-signs the
/// message and compares the two texts in constant time.
#[verifier::external_body]
fn hs256_verify(secret: &[u8], msg: &str, signature: &str) -> (r: Result<bool, jsonwebtoken::errors::Error>)
    ensures
        r is Ok,
        r matches Ok(ok) ==> ok == (signature@ == hs256_of(secret@, msg@)),
{
    crypto::verify(signature, msg.as_bytes(), &DecodingKey::from_secret(secret), Algorithm::HS256)
}

/// The encoded header `{"typ":"JWT","alg":"HS256"}`.
pub const JWT_HEADER: &'static str = "eyJ0eXAiOiJKV1QiLCJhbGciOiJIUzI1NiJ9";

/// How long a session token stays valid: one hour.
pub const SESSION_TOKEN_TTL: usize = 3600;

/// The claim set that a token carries: subject, expiry and issue time, in
/// whole seconds since the epoch.
#[derive(Debug, Clone, PartialEq, Eq)]
pub struct JWTClaims {
    pub sub: String,
    pub exp: usize,
    pub iat: usize,
}

#[derive(Debug, Clone, Copy, PartialEq, Eq)]
pub enum TokenError {
    /// Not three dot-separated parts, or a part that does not decode.
    Malformed,
    /// The signature is not the MAC of the header and payload.
    InvalidSignature,
    /// Signed correctly, but the expiry has passed.
    TokenExpired,
}

#[derive(Debug, Clone, Copy, PartialEq, Eq)]
pub enum ConfigurationError {
    /// No signing secret was configured.
    MissingSecret,
}

/// The server's signing secret, read once at startup.
pub struct SigningKey {
    secret: Vec<u8>,
}

impl View for SigningKey {
    type V = Seq<u8>;

    closed spec fn view(&self) -> Seq<u8> {
        self.secret@
    }
}

impl SigningKey {
    /// A key over `secret`; an empty secret counts as none.
    pub fn from_secret(secret: Vec<u8>) -> (r: Result<SigningKey, ConfigurationError>)
        ensures
            secret@.len() == 0 <==> r is Err,
            r matches Ok(k) ==> k@ == secret@,
    {
        if secret.len() == 0 {
            Err(ConfigurationError::MissingSecret)
        } else {
            Ok(SigningKey { secret })
        }
    }
}

pub open spec fn header_text() -> Seq<char> {
    JWT_HEADER@
}

pub open spec fn payload_text(sub: Seq<char>, exp: nat, iat: nat) -> Seq<char> {
    b64url_of(claims_bytes(encode_utf8(sub), exp, iat))
}

/// What the signature covers: `header.payload`.
pub open spec fn signing_input(payload: Seq<char>) -> Seq<char> {
    header_text() + seq!['.'] + payload
}

pub open spec fn signature_text(secret: Seq<u8>, sub: Seq<char>, exp: nat, iat: nat) -> Seq<char> {
    hs256_of(secret, signing_input(payload_text(sub, exp, iat)))
}

/// The token for a claim set under `secret`.
pub open spec fn token_text(secret: Seq<u8>, sub: Seq<char>, exp: nat, iat: nat) -> Seq<char> {
    signing_input(payload_text(sub, exp, iat)) + seq!['.'] + signature_text(secret, sub, exp, iat)
}

/// Neither the payload nor the signature holds a dot, so the token splits
/// back into its three parts.
pub open spec fn parts_dot_free(secret: Seq<u8>, sub: Seq<char>, exp: nat, iat: nat) -> bool {
    no_dot(payload_text(sub, exp, iat)) && no_dot(signature_text(secret, sub, exp, iat))
}

proof fn lemma_url_safe_no_dot(s: Seq<char>)
    requires
        url_safe(s),
    ensures
        no_dot(s),
{
    assert forall|i: int| 0 <= i < s.len() implies #[trigger] s[i] != '.' by {
        assert(url_safe_char(s[i]));
    }
}

/// `t` is the token that signing {sub, iat = t0, exp = t0 + ttl} under
/// `secret` gives.
pub open spec fn issued(secret: Seq<u8>, t: Seq<char>, sub: Seq<char>, t0: nat, ttl: nat) -> bool {
    t == token_text(secret, sub, t0 + ttl, t0) && parts_dot_free(secret, sub, t0 + ttl, t0)
}

/// Signs the claim set {sub, iat = now, exp = now + ttl}.
pub fn issue(key: &SigningKey, sub: &str, now: usize, ttl: usize) -> (r: String)
    requires
        now + ttl <= usize::MAX,
    ensures
        issued(key@, r@, sub@, now as nat, ttl as nat),
{
    let exp = now + ttl;
    proof {
        reveal_strlit(".");
    }
    let json = write_claims(sub.as_bytes(), exp, now);
    let payload = b64url_encode(json.as_slice());
    assert(payload@ == payload_text(sub@, exp as nat, now as nat));
    let mut msg = String::from_str(JWT_HEADER);
    msg.append(".");
    msg.append(payload.as_str());
    assert(msg@ == signing_input(payload@));
    let mut token = msg.clone();
    match hs256_sign(key.secret.as_slice(), msg.as_str()) {
        Ok(sig) => {
            token.append(".");
            token.append(sig.as_str());
            proof {
                lemma_url_safe_no_dot(payload@);
                lemma_url_safe_no_dot(sig@);
                assert(token@ =~= token_text(key@, sub@, exp as nat, now as nat));
                assert(parts_dot_free(key@, sub@, exp as nat, now as nat));
            }
        },
        // HS256 signing does not fail.
        Err(_) => {},
    }
    token
}

/// `t` is `h.p.s` with no dot inside a part.
pub open spec fn three_parts(t: Seq<char>, h: Seq<char>, p: Seq<char>, s: Seq<char>) -> bool {
    &&& t == h + seq!['.'] + p + seq!['.'] + s
    &&& no_dot(h)
    &&& no_dot(p)
    &&& no_dot(s)
}

/// `t` splits into three parts, and its last part is not the MAC of the
/// first two under `secret`.
pub open spec fn bad_signature(secret: Seq<u8>, t: Seq<char>) -> bool {
    exists|h: Seq<char>, p: Seq<char>, s: Seq<char>|
        #[trigger] three_parts(t, h, p, s) && s != hs256_of(secret, h + seq!['.'] + p)
}

/// Where the parts `h`, `p`, `s` of `t` and its two dots stand.
pub open spec fn split_facts(t: Seq<char>, h: Seq<char>, p: Seq<char>, s: Seq<char>) -> bool {
    &&& t.len() == h.len() + p.len() + s.len() + 2
    &&& t[h.len() as int] == '.'
    &&& t[h.len() + 1 + p.len() as int] == '.'
    &&& forall|k: int| 0 <= k < t.len() && #[trigger] t[k] == '.' ==> k == h.len() || k == h.len() + 1 + p.len()
    &&& t.subrange(0, h.len() as int) == h
    &&& t.subrange(h.len() + 1 as int, h.len() + 1 + p.len() as int) == p
    &&& t.subrange(h.len() + p.len() + 2 as int, t.len() as int) == s
    &&& t.subrange(0, h.len() + 1 + p.len() as int) == h + seq!['.'] + p
}

/// The dots of a three-part text are the two separators.
proof fn lemma_parts_dots(t: Seq<char>, h: Seq<char>, p: Seq<char>, s: Seq<char>)
    requires
        three_parts(t, h, p, s),
    ensures
        split_facts(t, h, p, s),
{
    let a = h.len() as int;
    let b = a + 1 + p.len();
    assert forall|k: int| 0 <= k < t.len() && #[trigger] t[k] == '.' implies k == a || k == b by {
        if k < a {
            assert(t[k] == h[k]);
        } else if a < k < b {
            assert(t[k] == p[k - a - 1]);
        } else if k > b {
            assert(t[k] == s[k - b - 1]);
        }
    }
    assert(t.subrange(0, a) =~= h);
    assert(t.subrange(a + 1, b) =~= p);
    assert(t.subrange(b + 1, t.len() as int) =~= s);
    assert(t.subrange(0, b) =~= h + seq!['.'] + p);
}

proof fn lemma_token_parts(secret: Seq<u8>, sub: Seq<char>, exp: nat, iat: nat)
    requires
        parts_dot_free(secret, sub, exp, iat),
    ensures
        three_parts(token_text(secret, sub, exp, iat), header_text(), payload_text(sub, exp, iat), signature_text(secret, sub, exp, iat)),
{
    reveal_strlit("eyJ0eXAiOiJKV1QiLCJhbGciOiJIUzI1NiJ9");
    assert(token_text(secret, sub, exp, iat) =~= header_text() + seq!['.'] + payload_text(sub, exp, iat) + seq!['.'] + signature_text(secret, sub, exp, iat));
}

/// How any text `t` splits: every three-part split of it has its dots
/// where `split_facts` says, and the token of any claims under `secret`
/// splits into header, payload and signature, whose texts are known.
proof fn lemma_token_shapes(secret: Seq<u8>, t: Seq<char>)
    ensures
        forall|h: Seq<char>, p: Seq<char>, s: Seq<char>| #[trigger] three_parts(t, h, p, s) ==> split_facts(t, h, p, s),
        forall|sub: Seq<char>, exp: usize, iat: usize|
            t == #[trigger] token_text(secret, sub, exp as nat, iat as nat) && parts_dot_free(secret, sub, exp as nat, iat as nat) ==> {
                &&& three_parts(t, header_text(), payload_text(sub, exp as nat, iat as nat), signature_text(secret, sub, exp as nat, iat as nat))
                &&& split_facts(t, header_text(), payload_text(sub, exp as nat, iat as nat), signature_text(secret, sub, exp as nat, iat as nat))
                &&& valid_utf8(encode_utf8(sub))
                &&& decode_utf8(encode_utf8(sub)) == sub
            },
{
    assert forall|h: Seq<char>, p: Seq<char>, s: Seq<char>| #[trigger] three_parts(t, h, p, s) implies split_facts(t, h, p, s) by {
        lemma_parts_dots(t, h, p, s);
    }
    assert forall|sub: Seq<char>, exp: usize, iat: usize|
        t == #[trigger] token_text(secret, sub, exp as nat, iat as nat) && parts_dot_free(secret, sub, exp as nat, iat as nat) implies {
            &&& three_parts(t, header_text(), payload_text(sub, exp as nat, iat as nat), signature_text(secret, sub, exp as nat, iat as nat))
            &&& split_facts(t, header_text(), payload_text(sub, exp as nat, iat as nat), signature_text(secret, sub, exp as nat, iat as nat))
            &&& valid_utf8(encode_utf8(sub))
            &&& decode_utf8(encode_utf8(sub)) == sub
        } by {
        lemma_token_parts(secret, sub, exp as nat, iat as nat);
        lemma_parts_dots(t, header_text(), payload_text(sub, exp as nat, iat as nat), signature_text(secret, sub, exp as nat, iat as nat));
        encode_utf8_valid_utf8(sub);
        encode_utf8_decode_utf8(sub);
    }
}

/// Index of the first dot of `t` at or after `from`.
fn find_dot(t: &str, from: usize, n: usize) -> (r: Option<usize>)
    requires
        n == t@.len(),
        from <= n,
    ensures
        r matches Some(i) ==> from <= i < n && t@[i as int] == '.',
        forall|k: int| from <= k < n && (r matches Some(i) ==> k < i) ==> t@[k] != '.',
{
    let mut i = from;
    while i < n
        invariant
            n == t@.len(),
            from <= i <= n,
            forall|k: int| from <= k < i ==> t@[k] != '.',
        decreases n - i,
    {
        if t.get_char(i) == '.' {
            return Some(i);
        }
        i += 1;
    }
    None
}

/// What `validate` returns on `t` at `now` under `secret`:
/// - a token that is the text of some claims under `secret` gives those
///   claims before their expiry and `TokenExpired` from then on;
/// - success and `TokenExpired` come only from such tokens;
/// - `InvalidSignature` comes exactly when `t` splits into three parts whose
///   last is not the MAC of the first two;
/// - anything else is `Malformed`.
pub open spec fn validation_holds(secret: Seq<u8>, t: Seq<char>, now: usize, r: Result<JWTClaims, TokenError>) -> bool {
    &&& forall|sub: Seq<char>, exp: usize, iat: usize|
        t == #[trigger] token_text(secret, sub, exp as nat, iat as nat) && parts_dot_free(secret, sub, exp as nat, iat as nat) ==> if now < exp {
            r matches Ok(c) && c.sub@ == sub && c.exp == exp && c.iat == iat
        } else {
            r matches Err(TokenError::TokenExpired)
        }
    &&& (r matches Ok(c) ==> now < c.exp && t == token_text(secret, c.sub@, c.exp as nat, c.iat as nat)
        && parts_dot_free(secret, c.sub@, c.exp as nat, c.iat as nat))
    &&& (r matches Err(TokenError::TokenExpired) ==> exists|sub: Seq<char>, exp: usize, iat: usize|
        t == #[trigger] token_text(secret, sub, exp as nat, iat as nat) && parts_dot_free(secret, sub, exp as nat, iat as nat) && now >= exp)
    &&& (r matches Err(TokenError::InvalidSignature)) <==> bad_signature(secret, t)
}

/// Checks a token against the key at time `now`: its three parts, its
/// signature, its header and payload, then its expiry.
pub fn validate(key: &SigningKey, token: &str, now: usize) -> (r: Result<JWTClaims, TokenError>)
    ensures
        validation_holds(key@, token@, now, r),
{
    proof {
        lemma_token_shapes(key@, token@);
    }
    let n = token.unicode_len();
    let first = find_dot(token, 0, n);
    let i = match first {
        Some(i) => i,
        None => return Err(TokenError::Malformed),
    };
    let second = find_dot(token, i + 1, n);
    let j = match second {
        Some(j) => j,
        None => return Err(TokenError::Malformed),
    };
    if find_dot(token, j + 1, n).is_some() {
        return Err(TokenError::Malformed);
    }
    let head = token.substring_char(0, i);
    let body = token.substring_char(i + 1, j);
    let sig = token.substring_char(j + 1, n);
    let msg = token.substring_char(0, j);
    proof {
        assert(token@ =~= head@ + seq!['.'] + body@ + seq!['.'] + sig@);
        assert(msg@ =~= head@ + seq!['.'] + body@);
        assert(three_parts(token@, head@, body@, sig@));
    }
    let signed = match hs256_verify(key.secret.as_slice(), msg, sig) {
        Ok(ok) => ok,
        Err(_) => false,
    };
    if !signed {
        return Err(TokenError::InvalidSignature);
    }
    assert(!bad_signature(key@, token@));
    if String::from_str(head) != String::from_str(JWT_HEADER) {
        return Err(TokenError::Malformed);
    }
    let json = match b64url_decode(body) {
        Some(json) => json,
        None => return Err(TokenError::Malformed),
    };
    let (sub_bytes, exp, iat) = match parse_claims(json.as_slice()) {
        Some(found) => found,
        None => return Err(TokenError::Malformed),
    };
    let ghost sb = sub_bytes@;
    let sub = match utf8_to_string(sub_bytes) {
        Some(sub) => sub,
        None => return Err(TokenError::Malformed),
    };
    proof {
        assert(json@ == claims_bytes(sb, exp as nat, iat as nat));
        reveal_strlit("eyJ0eXAiOiJKV1QiLCJhbGciOiJIUzI1NiJ9");
        assert(head@ == header_text());
        // The token is the one that these claims give.
        assert(body@ == b64url_of(json@));
        assert(sb == encode_utf8(sub@)) by {
            // `sub` decodes `sb`, and `sb` is valid UTF-8 since it decoded.
            decode_utf8_encode_utf8(sb);
        }
        assert(body@ == payload_text(sub@, exp as nat, iat as nat));
        assert(sig@ == signature_text(key@, sub@, exp as nat, iat as nat));
        assert(token@ =~= token_text(key@, sub@, exp as nat, iat as nat));
    }
    if now >= exp {
        return Err(TokenError::TokenExpired);
    }
    Ok(JWTClaims { sub, exp, iat })
}

/// A token issued at `t0` for `ttl` seconds validates, with the claims it
/// was issued with, at every `now` in `[t0, t0 + ttl)` (and before), and
/// fails with `TokenExpired` at `t0 + ttl` and after.
pub proof fn lemma_issued_token_lifetime(
    secret: Seq<u8>,
    t: Seq<char>,
    sub: Seq<char>,
    t0: usize,
    ttl: usize,
    now: usize,
    r: Result<JWTClaims, TokenError>,
)
    requires
        t0 + ttl <= usize::MAX,
        issued(secret, t, sub, t0 as nat, ttl as nat),
        validation_holds(secret, t, now, r),
    ensures
        now < t0 + ttl ==> (r matches Ok(c) && c.sub@ == sub && c.iat == t0 && c.exp == t0 + ttl),
        now >= t0 + ttl ==> (r matches Err(TokenError::TokenExpired)),
{
    let exp = (t0 + ttl) as usize;
    assert(t == token_text(secret, sub, exp as nat, t0 as nat));
}

/// An issued token whose signature part is replaced by any other text (one
/// flipped bit, say) never validates and is not reported as merely expired.
pub proof fn lemma_altered_signature_rejected(
    secret: Seq<u8>,
    sub: Seq<char>,
    t0: usize,
    ttl: usize,
    forged: Seq<char>,
    now: usize,
    r: Result<JWTClaims, TokenError>,
)
    requires
        t0 + ttl <= usize::MAX,
        parts_dot_free(secret, sub, (t0 + ttl) as nat, t0 as nat),
        forged != signature_text(secret, sub, (t0 + ttl) as nat, t0 as nat),
        validation_holds(secret, signing_input(payload_text(sub, (t0 + ttl) as nat, t0 as nat)) + seq!['.'] + forged, now, r),
    ensures
        r is Err,
        !(r matches Err(TokenError::TokenExpired)),
{
    let p = payload_text(sub, (t0 + ttl) as nat, t0 as nat);
    let t = signing_input(p) + seq!['.'] + forged;
    let h = header_text();
    reveal_strlit("eyJ0eXAiOiJKV1QiLCJhbGciOiJIUzI1NiJ9");
    assert(no_dot(h));
    // Whatever claims `t` would be the token of, its payload is `p` and its
    // signature would have to be `forged`.
    assert forall|s2: Seq<char>, e2: usize, i2: usize|
        t == #[trigger] token_text(secret, s2, e2 as nat, i2 as nat) && parts_dot_free(secret, s2, e2 as nat, i2 as nat) implies false by {
        lemma_token_parts(secret, s2, e2 as nat, i2 as nat);
        let p2 = payload_text(s2, e2 as nat, i2 as nat);
        let g2 = signature_text(secret, s2, e2 as nat, i2 as nat);
        lemma_parts_dots(t, h, p2, g2);
        let b: int = h.len() + 1 + p.len() as int;
        assert(t[b] == '.');
        assert(p2.len() == p.len());
        assert(t.subrange(h.len() + 1 as int, b) =~= p);
        assert(p2 == p);
        assert(t.subrange(b + 1, t.len() as int) =~= forged);
    }
    if r matches Err(TokenError::TokenExpired) {
        let (s2, e2, i2) = choose|s2: Seq<char>, e2: usize, i2: usize|
            t == #[trigger] token_text(secret, s2, e2 as nat, i2 as nat) && parts_dot_free(secret, s2, e2 as nat, i2 as nat) && now >= e2;
        assert(t == token_text(secret, s2, e2 as nat, i2 as nat));
    }
}

} // verus!

use auth_core::session::{
    bearer_token, session_claims_for_login, Claims, DecodeError, EncodeError,
    SESSION_VALIDITY_SECS,
};

const SECRET: Option<&str> = Some("a-shared-secret");

#[test]
fn session_round_trip_identical_claims() {
    let claims = Claims { sub: "3f2b1c9e-0000-4000-8000-123456789abc".to_string(), exp: 2000 };
    let token = claims.encode(SECRET).unwrap();
    let back = Claims::decode(&token, SECRET, 1000).unwrap();
    assert_eq!(back.sub, claims.sub);
    assert_eq!(back.exp, claims.exp);
}

#[test]
fn session_round_trip_exotic_subject() {
    // quotes, backslashes and control bytes go through the escapes,
    // other text through UTF-8 unchanged
    let claims = Claims { sub: "a\"b\\c\nd\tå∞".to_string(), exp: 99_999 };
    let token = claims.encode(SECRET).unwrap();
    let back = Claims::decode(&token, SECRET, 0).unwrap();
    assert_eq!(back.sub, claims.sub);
    assert_eq!(back.exp, claims.exp);
}

#[test]
fn session_expired_is_distinct_from_tampered() {
    let claims = Claims { sub: "user-1".to_string(), exp: 500 };
    let token = claims.encode(SECRET).unwrap();
    // expiry in the past: a distinct rejection
    assert_eq!(Claims::decode(&token, SECRET, 500).unwrap_err(), DecodeError::TokenExpired);
    assert_eq!(Claims::decode(&token, SECRET, 9999).unwrap_err(), DecodeError::TokenExpired);
    // a tampered signature: the generic rejection, even though it is expired
    let mut tampered = String::from(&token[..token.len() - 2]);
    tampered.push_str(if token.ends_with("xx") { "yy" } else { "xx" });
    assert_eq!(
        Claims::decode(&tampered, SECRET, 9999).unwrap_err(),
        DecodeError::InvalidSignatureOrFormat
    );
    // a wrong secret is also the generic rejection
    assert_eq!(
        Claims::decode(&token, Some("other-secret"), 100).unwrap_err(),
        DecodeError::InvalidSignatureOrFormat
    );
}

#[test]
fn session_decode_boundary_is_expiry_instant() {
    let claims = Claims { sub: "u".to_string(), exp: 1000 };
    let token = claims.encode(SECRET).unwrap();
    assert!(Claims::decode(&token, SECRET, 999).is_ok());
    assert_eq!(Claims::decode(&token, SECRET, 1000).unwrap_err(), DecodeError::TokenExpired);
}

#[test]
fn session_missing_secret() {
    let claims = Claims { sub: "u".to_string(), exp: 1000 };
    assert_eq!(claims.encode(None).unwrap_err(), EncodeError::SecretKeyEnvNotFound);
    assert_eq!(
        Claims::decode("x.y.z", None, 0).unwrap_err(),
        DecodeError::SecretKeyEnvNotFound
    );
}

#[test]
fn session_malformed_tokens() {
    for bad in ["", "no-dots", "one.dot", "a.b.c", "..", "!!.&&.%%"] {
        assert_eq!(
            Claims::decode(bad, SECRET, 0).unwrap_err(),
            DecodeError::InvalidSignatureOrFormat
        );
    }
}

#[test]
fn session_token_reads_as_standard_jwt() {
    // the issued token verifies under an independent implementation
    let claims = Claims { sub: "interop-1".to_string(), exp: 4102444800 };
    let token = claims.encode(SECRET).unwrap();
    let mut validation = jsonwebtoken::Validation::new(jsonwebtoken::Algorithm::HS256);
    validation.set_required_spec_claims(&["exp"]);
    let key = jsonwebtoken::DecodingKey::from_secret(SECRET.unwrap().as_bytes());
    let data =
        jsonwebtoken::decode::<serde_json::Value>(&token, &key, &validation).unwrap();
    assert_eq!(data.claims.get("sub").unwrap().as_str().unwrap(), "interop-1");
    assert_eq!(data.claims.get("exp").unwrap().as_u64().unwrap(), 4102444800);
    assert_eq!(data.header.alg, jsonwebtoken::Algorithm::HS256);
}

#[test]
fn session_accepts_independently_issued_token() {
    // a token issued by an independent implementation decodes here
    let mut payload = serde_json::Map::new();
    payload.insert("sub".to_string(), serde_json::Value::String("other-side".to_string()));
    payload.insert(
        "exp".to_string(),
        serde_json::Value::Number(serde_json::Number::from(4102444800u64)),
    );
    let header = jsonwebtoken::Header::new(jsonwebtoken::Algorithm::HS256);
    let key = jsonwebtoken::EncodingKey::from_secret(SECRET.unwrap().as_bytes());
    let token =
        jsonwebtoken::encode(&header, &serde_json::Value::Object(payload), &key).unwrap();
    let back = Claims::decode(&token, SECRET, 1_000_000).unwrap();
    assert_eq!(back.sub, "other-side");
    assert_eq!(back.exp, 4102444800);
}

#[test]
fn login_claims_run_thirty_days() {
    let c = session_claims_for_login("uid-9".to_string(), 1_000_000);
    assert_eq!(c.sub, "uid-9");
    assert_eq!(c.exp, 1_000_000 + SESSION_VALIDITY_SECS);
    assert_eq!(c.exp, 1_000_000 + 30 * 24 * 3600);
}

#[test]
fn bearer_token_extraction() {
    assert_eq!(bearer_token("Bearer abc.def.ghi"), Some("abc.def.ghi"));
    assert_eq!(bearer_token("Bearer "), Some(""));
    assert_eq!(bearer_token("bearer abc"), None);
    assert_eq!(bearer_token("Basic abc"), None);
    assert_eq!(bearer_token(""), None);
    assert_eq!(bearer_token("Bearer"), None);
}

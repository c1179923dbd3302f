use auth_core::cache::GoogleJwkKeys;
use auth_core::keys::{JwkKey, JwkKeys, KeysParseError};

fn body_one_key() -> &'static str {
    "{\"keys\":[{\"e\":\"AQAB\",\"alg\":\"RS256\",\"kty\":\"RSA\",\"kid\":\"kid1\",\"n\":\"abc123\"}]}"
}

#[test]
fn keyset_is_still_valid_boundary() {
    let ks = JwkKeys { keys: Vec::new(), created: 100, validity: 50 };
    assert!(ks.is_still_valid(0));
    assert!(ks.is_still_valid(149));
    // false at exactly created + validity, and beyond
    assert!(!ks.is_still_valid(150));
    assert!(!ks.is_still_valid(151));
    assert!(!ks.is_still_valid(u64::MAX));
}

#[test]
fn keyset_parse_body_and_header() {
    let ks = JwkKeys::parse(body_one_key(), Some("max-age=120"), 1000).unwrap();
    assert_eq!(ks.created, 1000);
    assert_eq!(ks.validity, 120);
    assert_eq!(ks.keys.len(), 1);
    let k = &ks.keys[0];
    assert_eq!(k.e, "AQAB");
    assert_eq!(k.alg, "RS256");
    assert_eq!(k.kty, "RSA");
    assert_eq!(k.kid, "kid1");
    assert_eq!(k.n, "abc123");
}

#[test]
fn keyset_parse_fallback_validity() {
    // absent header, header without max-age, and malformed value all fall back
    assert_eq!(JwkKeys::parse(body_one_key(), None, 0).unwrap().validity, 60);
    assert_eq!(JwkKeys::parse(body_one_key(), Some("no-cache"), 0).unwrap().validity, 60);
    assert_eq!(JwkKeys::parse(body_one_key(), Some("max-age=zz"), 0).unwrap().validity, 60);
}

#[test]
fn keyset_parse_rejects_bad_bodies() {
    let bad = [
        "",
        "not json",
        "{}",
        "{\"keys\":{}}",
        "{\"keys\":[{\"e\":\"AQAB\"}]}",
        "{\"keys\":[{\"e\":\"AQAB\",\"alg\":\"RS256\",\"kty\":\"RSA\",\"kid\":\"kid1\",\"n\":1}]}",
        "{\"keys\":[]} trailing",
        "{\"keys\":[{\"e\":\"AQAB\",\"alg\":\"RS256\",\"kty\":\"RSA\",\"kid\":\"kid1\",\"n\":\"x\",\"kid\":\"dup\"}]}",
    ];
    for b in bad.iter() {
        assert_eq!(JwkKeys::parse(b, None, 0).unwrap_err(), KeysParseError::ParseError);
    }
}

#[test]
fn keyset_parse_tolerates_unknown_members() {
    let body = "{\"version\":1,\"keys\":[{\"use\":\"sig\",\"e\":\"AQAB\",\"alg\":\"RS256\",\
                \"kty\":\"RSA\",\"kid\":\"k\\u0041\",\"n\":\"mm\",\"extra\":{\"deep\":[1,2,{}]}}],\
                \"meta\":null}";
    let ks = JwkKeys::parse(body, None, 0).unwrap();
    assert_eq!(ks.keys.len(), 1);
    // the A escape in the key id reads as `A`
    assert_eq!(ks.keys[0].kid, "kA");
}

#[test]
fn keyset_find_key_latest_wins() {
    let body = "{\"keys\":[\
        {\"e\":\"e1\",\"alg\":\"RS256\",\"kty\":\"RSA\",\"kid\":\"dup\",\"n\":\"n1\"},\
        {\"e\":\"e2\",\"alg\":\"RS256\",\"kty\":\"RSA\",\"kid\":\"dup\",\"n\":\"n2\"},\
        {\"e\":\"e3\",\"alg\":\"RS256\",\"kty\":\"RSA\",\"kid\":\"other\",\"n\":\"n3\"}]}";
    let ks = JwkKeys::parse(body, None, 0).unwrap();
    // with equal key ids the later entry wins, as in a map built by inserts
    assert_eq!(ks.find_key("dup").unwrap().n, "n2");
    assert_eq!(ks.find_key("other").unwrap().n, "n3");
    assert!(ks.find_key("absent").is_none());
}

#[test]
fn cache_reader_keeps_pre_refresh_snapshot() {
    let first = JwkKeys {
        keys: vec![JwkKey {
            e: "AQAB".to_string(),
            alg: "RS256".to_string(),
            kty: "RSA".to_string(),
            kid: "old".to_string(),
            n: "n-old".to_string(),
        }],
        created: 10,
        validity: 60,
    };
    let mut cache = GoogleJwkKeys::load_new(first);
    assert_eq!(cache.latest_keys().created, 10);
    assert!(!cache.needs_refresh(69));
    assert!(cache.needs_refresh(70));
    let fresh = JwkKeys { keys: Vec::new(), created: 70, validity: 120 };
    // installation hands the old snapshot back whole: a reader that took it
    // before the refresh still sees exactly the pre-refresh value
    let prev = cache.install(fresh);
    assert_eq!(prev.created, 10);
    assert_eq!(prev.validity, 60);
    assert_eq!(prev.keys.len(), 1);
    assert_eq!(prev.keys[0].kid, "old");
    assert_eq!(prev.keys[0].n, "n-old");
    assert_eq!(cache.latest_keys().created, 70);
    assert!(cache.latest_keys().keys.is_empty());
}

use auth_core::config::{split_issuers, JwkConfiguration};
use auth_core::models::{HasStatusCode, MyRes, PostType};

#[test]
fn issuer_list_splits_on_spaces() {
    assert_eq!(split_issuers("https://a https://b"), vec!["https://a", "https://b"]);
    assert_eq!(split_issuers("single"), vec!["single"]);
    assert_eq!(split_issuers(""), vec![""]);
    // empty pieces are kept, as the standard splitter keeps them
    assert_eq!(split_issuers("a  b"), vec!["a", "", "b"]);
    assert_eq!(split_issuers(" a"), vec!["", "a"]);
}

#[test]
fn configuration_carries_its_values() {
    let cfg = JwkConfiguration {
        jwk_url: "https://keys.example/jwk".to_string(),
        audience: "aud".to_string(),
        issuer: "iss-a iss-b".to_string(),
    };
    assert_eq!(split_issuers(&cfg.issuer).len(), 2);
    assert_eq!(cfg.audience, "aud");
    assert_eq!(cfg.jwk_url, "https://keys.example/jwk");
}

#[test]
fn unit_error_answers_not_found() {
    assert_eq!(().get_status(), 404);
}

#[test]
fn result_shapes_hold_their_payloads() {
    let ok: MyRes<u32, ()> = MyRes::OkRes(7);
    match ok {
        MyRes::OkRes(v) => assert_eq!(v, 7),
        _ => panic!("expected the payload"),
    }
    let fail: MyRes<u32, ()> = MyRes::Fail("boom".to_string());
    match fail {
        MyRes::Fail(m) => assert_eq!(m, "boom"),
        _ => panic!("expected the failure"),
    }
    assert_eq!(PostType::Needs, PostType::Needs);
    assert_ne!(PostType::Needs, PostType::Supplies);
}

use auth_core::max_age::{parse_cache_control, parse_max_age_value, MaxAgeParseError};

#[test]
fn test_parse_max_age_value() {
    let res_exp = &[
        ("max-age=120", 120),
        (" max-age = 130 ", 130),
        ("key1=val,max-age=140,key2=val", 140),
        ("key1=val, max-age=150 , key2=val", 150),
    ];
    for (res, expected) in res_exp {
        assert_eq!(parse_max_age_value(res).unwrap(), *expected);
    }
}

#[test]
fn test_parse_max_age_value_fail() {
    let res_exp = &[
        ("max-age", MaxAgeParseError::MaxAgeValueEmpty),
        ("max-age=1r", MaxAgeParseError::NonNumericMaxAge),
        ("max-age=", MaxAgeParseError::NonNumericMaxAge),
        ("key=val", MaxAgeParseError::NoMaxAgeSpecified),
    ];
    for (res, expected) in res_exp {
        assert_eq!(parse_max_age_value(res).unwrap_err(), *expected);
    }
}

#[test]
fn max_age_any_casing_and_position() {
    assert_eq!(parse_max_age_value("MAX-AGE=5").unwrap(), 5);
    assert_eq!(parse_max_age_value("no-cache, Max-Age=3600").unwrap(), 3600);
    assert_eq!(parse_max_age_value("public,mAx-AgE=0").unwrap(), 0);
    // the first matching directive decides
    assert_eq!(parse_max_age_value("max-age=1,max-age=2").unwrap(), 1);
}

#[test]
fn max_age_value_details() {
    // a leading plus sign is how u64 parsing reads it
    assert_eq!(parse_max_age_value("max-age=+7").unwrap(), 7);
    // whitespace inside the number is not numeric
    assert_eq!(
        parse_max_age_value("max-age=1 5").unwrap_err(),
        MaxAgeParseError::NonNumericMaxAge
    );
    // a negative value is not a non-negative integer
    assert_eq!(
        parse_max_age_value("max-age=-1").unwrap_err(),
        MaxAgeParseError::NonNumericMaxAge
    );
    // an overflowing value is not numeric either
    assert_eq!(
        parse_max_age_value("max-age=99999999999999999999").unwrap_err(),
        MaxAgeParseError::NonNumericMaxAge
    );
    // the value after the first equals sign counts whole
    assert_eq!(
        parse_max_age_value("max-age=1=2").unwrap_err(),
        MaxAgeParseError::NonNumericMaxAge
    );
    assert_eq!(parse_max_age_value("").unwrap_err(), MaxAgeParseError::NoMaxAgeSpecified);
}

#[test]
fn cache_control_header_absent() {
    assert_eq!(
        parse_cache_control(None).unwrap_err(),
        MaxAgeParseError::NoCacheControlHeader
    );
    assert_eq!(parse_cache_control(Some("max-age=90")).unwrap(), 90);
}

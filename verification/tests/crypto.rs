use pool::err::Error;
use pool::server::crypto::{gen_token, gen_token_at, parse_token, parse_token_at, user_from_claims, Auth};
use pool::util::{byte_v2hex, hex2byte_v};

#[test]
fn test_hex() {
    let hex = "a";
    let byte_v = hex2byte_v(hex);
    assert_eq!(byte_v[0], 10);
    assert_eq!("0a", byte_v2hex(&byte_v));
}

#[test]
fn mod_test() {
    let key = "a";
    let token = gen_token(
        key,
        &Auth {
            email: format!("email"),
            password: format!("password"),
        },
    )
    .unwrap();
    let user = parse_token(key, &token).unwrap();
    assert_eq!(user.email, "email");
}

fn someone() -> Auth {
    Auth {
        email: format!("someone@example.org"),
        password: format!("secret"),
    }
}

#[test]
fn issued_token_names_its_subject_until_it_expires() {
    let token = gen_token_at("0a1b", &someone(), 1_000).unwrap();
    assert_eq!(parse_token_at("0a1b", &token, 1_000).unwrap().email, "someone@example.org");
    assert_eq!(parse_token_at("0a1b", &token, 4_600).unwrap().email, "someone@example.org");
    assert!(matches!(parse_token_at("0a1b", &token, 4_601), Err(Error::NotLogin(_))));
}

#[test]
fn issued_token_has_three_parts_and_a_fixed_header() {
    let token = gen_token_at("0a1b", &someone(), 1_000).unwrap();
    let parts: Vec<&str> = token.split('.').collect();
    assert_eq!(parts.len(), 3);
    assert_eq!(parts[0], "eyJhbGciOiJIUzUxMiJ9");
    assert_ne!(token, "0a1b");
}

#[test]
fn token_is_refused_under_another_secret() {
    let token = gen_token_at("0a1b", &someone(), 1_000).unwrap();
    assert!(matches!(parse_token_at("0a1c", &token, 1_000), Err(Error::NotLogin(_))));
}

#[test]
fn secret_is_read_without_regard_to_case() {
    let token = gen_token_at("0A1B", &someone(), 1_000).unwrap();
    assert_eq!(parse_token_at("0a1b", &token, 1_000).unwrap().email, "someone@example.org");
}

#[test]
fn altered_token_is_refused() {
    let token = gen_token_at("0a1b", &someone(), 1_000).unwrap();
    for at in 0..token.len() {
        let mut bytes = token.clone().into_bytes();
        bytes[at] = if bytes[at] == b'A' { b'B' } else { b'A' };
        let altered = String::from_utf8(bytes).unwrap();
        assert!(
            matches!(parse_token_at("0a1b", &altered, 1_000), Err(Error::NotLogin(_))),
            "byte {} altered",
            at
        );
    }
}

#[test]
fn garbage_is_no_token() {
    assert!(matches!(parse_token_at("0a1b", "", 0), Err(Error::NotLogin(_))));
    assert!(matches!(parse_token_at("0a1b", "a.b.c", 0), Err(Error::NotLogin(_))));
    assert!(matches!(parse_token("0a1b", "a.b"), Err(Error::NotLogin(_))));
}

#[test]
fn issue_succeeds_for_every_secret_and_subject() {
    for key in ["", "0", "zz", "0a1b", "\u{1F600}"] {
        for email in ["", "a", "\"", "{\"exp\":\"0\"}"] {
            let auth = Auth { email: email.to_string(), password: String::new() };
            assert!(gen_token_at(key, &auth, 0).is_ok());
            assert!(gen_token_at(key, &auth, u64::MAX - 3600).is_ok());
        }
    }
}

#[test]
fn issue_fails_where_the_expiry_does_not_fit() {
    assert!(matches!(gen_token_at("0a", &someone(), u64::MAX - 3599), Err(Error::Other(_))));
    assert!(gen_token_at("0a", &someone(), u64::MAX - 3600).is_ok());
}

fn pair(name: &str, value: &str) -> (String, String) {
    (name.to_string(), value.to_string())
}

#[test]
fn claims_without_expiry_or_subject_name_nobody() {
    let no_exp = vec![pair("email", "a@b")];
    assert!(matches!(user_from_claims(&no_exp, 0), Err(Error::NotLogin(_))));
    let no_email = vec![pair("exp", "10")];
    assert!(matches!(user_from_claims(&no_email, 0), Err(Error::NotLogin(_))));
    let bad_exp = vec![pair("email", "a@b"), pair("exp", "soon")];
    assert!(matches!(user_from_claims(&bad_exp, 0), Err(Error::NotLogin(_))));
    let both = vec![pair("exp", "10"), pair("email", "a@b")];
    assert_eq!(user_from_claims(&both, 10).unwrap().email, "a@b");
    assert!(matches!(user_from_claims(&both, 11), Err(Error::NotLogin(_))));
}

#[test]
fn token_round_trip_with_unusual_subjects_and_secrets() {
    for email in ["", "a\"b\\c", "line\nbreak\u{0}", "ünïcödé@例え.jp", "exp", "email"] {
        for key in ["", "0", "00ff", "not hex at all", "ABCDEF0123456789abcdef"] {
            let auth = Auth { email: email.to_string(), password: String::new() };
            let token = gen_token_at(key, &auth, 7).unwrap();
            assert_eq!(parse_token_at(key, &token, 7).unwrap().email, email);
            assert_eq!(parse_token_at(key, &token, 3607).unwrap().email, email);
            assert!(parse_token_at(key, &token, 3608).is_err());
        }
    }
}

#[test]
fn issuing_twice_at_one_time_gives_one_token() {
    let a = gen_token_at("0a1b", &someone(), 1_000).unwrap();
    let b = gen_token_at("0a1b", &someone(), 1_000).unwrap();
    let c = gen_token_at("0a1b", &someone(), 1_001).unwrap();
    assert_eq!(a, b);
    assert_ne!(a, c);
}

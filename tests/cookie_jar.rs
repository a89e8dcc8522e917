use tower_aws::cookie::Cookie;
use tower_aws::cookie_jar::DecryptOutcome;
use tower_aws::cookie_jar::EncryptOutcome;
use tower_aws::cookie_jar::JarError;
use tower_aws::cookie_jar::KeyId;
use tower_aws::cookie_jar::PrivateCookieJar;

fn s(v: &str) -> String {
    v.to_string()
}

fn key() -> KeyId {
    KeyId::new(s("arn:aws:kms:eu-west-1:000000000000:key/test"))
}

fn opened(pairs: &[(&str, &str)]) -> PrivateCookieJar {
    let outcomes = pairs
        .iter()
        .map(|(n, v)| (s(n), DecryptOutcome::Plaintext(v.as_bytes().to_vec())))
        .collect();
    match PrivateCookieJar::from_decrypted(key(), outcomes) {
        Ok(j) => j,
        Err(_) => panic!("jar failed"),
    }
}

fn value_of(j: &PrivateCookieJar, name: &str) -> Option<String> {
    j.get(&s(name)).map(|c| c.value().to_string())
}

#[test]
fn key_id_keeps_its_text() {
    let k = KeyId::new(s("alias/cookies"));
    assert_eq!(k.as_str(), "alias/cookies");
}

#[test]
fn corrupted_payload_is_dropped() {
    let headers = vec![s("good=AQID; bad=***; worse=A")];
    let sealed = PrivateCookieJar::sealed_cookies(&headers);
    assert_eq!(sealed.len(), 1);
    assert_eq!(sealed[0].name, "good");
    assert_eq!(sealed[0].ciphertext, vec![1, 2, 3]);
}

#[test]
fn padded_payload_is_dropped() {
    let sealed = PrivateCookieJar::sealed_cookies(&vec![s("p=AQI=; q=AQI")]);
    assert_eq!(sealed.len(), 1);
    assert_eq!(sealed[0].name, "q");
    assert_eq!(sealed[0].ciphertext, vec![1, 2]);
}

#[test]
fn three_cookies_make_three_decrypt_calls() {
    let headers = vec![s("a=AQ; b=Ag"), s("c=Aw")];
    let sealed = PrivateCookieJar::sealed_cookies(&headers);
    assert_eq!(sealed.len(), 3);
    let names: Vec<&str> = sealed.iter().map(|x| x.name.as_str()).collect();
    assert_eq!(names, vec!["a", "b", "c"]);
    assert_eq!(sealed[2].ciphertext, vec![3]);
}

#[test]
fn no_cookie_header_means_no_call() {
    assert!(PrivateCookieJar::sealed_cookies(&vec![]).is_empty());
}

#[test]
fn retired_key_cookie_is_dropped() {
    let outcomes = vec![
        (s("kept"), DecryptOutcome::Plaintext(b"yes".to_vec())),
        (s("old"), DecryptOutcome::InvalidCiphertext),
        (s("other"), DecryptOutcome::IncorrectKey),
        (s("empty"), DecryptOutcome::NoPlaintext),
        (s("binary"), DecryptOutcome::Plaintext(vec![0xff, 0xfe])),
    ];
    let jar = match PrivateCookieJar::from_decrypted(key(), outcomes) {
        Ok(j) => j,
        Err(_) => panic!("a rejected cookie must not fail the jar"),
    };
    assert_eq!(value_of(&jar, "kept"), Some(s("yes")));
    assert_eq!(value_of(&jar, "old"), None);
    assert_eq!(value_of(&jar, "other"), None);
    assert_eq!(value_of(&jar, "empty"), None);
    assert_eq!(value_of(&jar, "binary"), None);
    assert_eq!(jar.iter().len(), 1);
}

#[test]
fn hard_failure_aborts_the_jar() {
    let outcomes = vec![
        (s("a"), DecryptOutcome::InvalidCiphertext),
        (s("b"), DecryptOutcome::Failure),
        (s("c"), DecryptOutcome::Failure),
    ];
    assert!(matches!(PrivateCookieJar::from_decrypted(key(), outcomes), Err(JarError::Decrypt(1))));
    assert!(PrivateCookieJar::is_hard_failure(&DecryptOutcome::Failure));
    assert!(!PrivateCookieJar::is_hard_failure(&DecryptOutcome::InvalidCiphertext));
}

#[test]
fn later_cookie_of_same_name_wins() {
    let jar = opened(&[("a", "1"), ("a", "2")]);
    assert_eq!(value_of(&jar, "a"), Some(s("2")));
    assert_eq!(jar.iter().len(), 1);
}

#[test]
fn add_and_remove_change_the_view_only() {
    let jar = opened(&[("a", "1")]);
    let jar = jar.add(Cookie::new(s("b"), s("2")));
    assert_eq!(value_of(&jar, "b"), Some(s("2")));
    let jar = jar.add(Cookie::new(s("b"), s("3")));
    assert_eq!(value_of(&jar, "b"), Some(s("3")));
    assert_eq!(jar.iter().len(), 2);
    let jar = jar.remove(Cookie::new(s("a"), s("")));
    assert_eq!(value_of(&jar, "a"), None);
    assert_eq!(jar.key_id().as_str(), key().as_str());
}

#[test]
fn finish_emits_only_the_delta() {
    let jar = opened(&[("a", "1"), ("b", "2")]);
    let jar = jar.remove(Cookie::new(s("b"), s("")));
    let jar = jar.add(Cookie::new(s("c"), s("3")));
    let delta = jar.delta();
    assert_eq!(delta.len(), 1);
    assert_eq!(delta[0].name(), "c");
    assert_eq!(jar.plaintexts(), vec![b"3".to_vec()]);
    assert_eq!(jar.removed().len(), 1);
    let out = jar.finish(&vec![EncryptOutcome::Ciphertext(vec![0xfb, 0xff])]);
    let headers = match out.0 {
        Ok(h) => h,
        Err(_) => panic!("finish failed"),
    };
    assert_eq!(headers.len(), 2);
    assert_eq!(headers[0], "c=-_8; HttpOnly; Secure");
    assert_eq!(headers[1], "b=; Max-Age=0; Expires=Thu, 01 Jan 1970 00:00:00 GMT");
    assert!(!headers.iter().any(|h| h.starts_with("a=")));
}

#[test]
fn unchanged_value_is_not_sealed_again() {
    let jar = opened(&[("a", "1")]);
    let jar = jar.add(Cookie::new(s("a"), s("1")));
    assert!(jar.delta().is_empty());
    let jar = jar.add(Cookie::new(s("a"), s("2")));
    assert_eq!(jar.delta().len(), 1);
}

#[test]
fn encrypt_failure_emits_nothing() {
    let jar = opened(&[]).add(Cookie::new(s("x"), s("1"))).add(Cookie::new(s("y"), s("2")));
    let outcomes = vec![EncryptOutcome::Ciphertext(vec![1]), EncryptOutcome::Failure];
    assert!(matches!(jar.into_headers(&outcomes), Err(JarError::Encrypt(1))));
    let outcomes = vec![EncryptOutcome::NoCiphertext, EncryptOutcome::Ciphertext(vec![1])];
    assert!(matches!(jar.finish(&outcomes).0, Err(JarError::Encrypt(0))));
}

#[test]
fn value_round_trips_through_a_later_request() {
    let jar = opened(&[]);
    let jar = jar.add(Cookie::new(s("count"), s("hello")));
    let sealed_bytes = jar.plaintexts();
    assert_eq!(sealed_bytes, vec![b"hello".to_vec()]);
    // the service seals the plaintext; here its ciphertext is some bytes
    let ciphertext = vec![9, 8, 7, 6, 5];
    let headers = match jar.into_headers(&vec![EncryptOutcome::Ciphertext(ciphertext.clone())]) {
        Ok(h) => h,
        Err(_) => panic!("finish failed"),
    };
    assert_eq!(headers, vec![s("count=CQgHBgU; HttpOnly; Secure")]);
    // the client sends back name=value; the service opens the ciphertext
    let sent = headers[0].split(';').next().unwrap().to_string();
    let sealed = PrivateCookieJar::sealed_cookies(&vec![sent]);
    assert_eq!(sealed.len(), 1);
    assert_eq!(sealed[0].ciphertext, ciphertext);
    let later = match PrivateCookieJar::from_decrypted(
        key(),
        vec![(sealed[0].name.clone(), DecryptOutcome::Plaintext(sealed_bytes[0].clone()))],
    ) {
        Ok(j) => j,
        Err(_) => panic!("jar failed"),
    };
    assert_eq!(value_of(&later, "count"), Some(s("hello")));
}

#[test]
fn cookie_attributes_are_kept_when_sealed() {
    let mut c = Cookie::new(s("n"), s("v"));
    c.path = Some(s("/"));
    c.max_age = Some(60);
    let jar = opened(&[]).add(c);
    let h = match jar.into_headers(&vec![EncryptOutcome::Ciphertext(vec![0])]) {
        Ok(h) => h,
        Err(_) => panic!("finish failed"),
    };
    assert_eq!(h, vec![s("n=AA; HttpOnly; Secure; Path=/; Max-Age=60")]);
}

use rand_chacha::rand_core::SeedableRng;
use rand_chacha::ChaCha20Rng;
use tower_aws::attribute::same_attributes;
use tower_aws::attribute::AttrValue;
use tower_aws::session::parse_record;
use tower_aws::session::persist;
use tower_aws::session::resolve_session;
use tower_aws::session::session_cookie;
use tower_aws::session::session_cookie_id;
use tower_aws::session::usable_record;
use tower_aws::session::Session;
use tower_aws::session_id::new_session_id;
use tower_aws::session_id::session_id_from;

fn s(v: &str) -> String {
    v.to_string()
}

fn entry(name: &str, value: AttrValue) -> (String, AttrValue) {
    (s(name), value)
}

fn is_lower_hex(id: &str) -> bool {
    id.chars().all(|c| c.is_ascii_digit() || ('a'..='f').contains(&c))
}

fn stored(id: &str, expires: &str, extra: Vec<(String, AttrValue)>) -> Vec<(String, AttrValue)> {
    let mut item = vec![entry("id", AttrValue::S(s(id))), entry("expires", AttrValue::N(s(expires)))];
    item.extend(extra);
    item
}

fn count_of(attrs: &[(String, AttrValue)]) -> u64 {
    for (k, v) in attrs {
        if k == "count" {
            if let AttrValue::N(n) = v {
                return n.parse().unwrap();
            }
        }
    }
    0
}

#[test]
fn session_id_is_zero_padded_hex() {
    assert_eq!(session_id_from(0), "00000000000000000000000000000000");
    assert_eq!(session_id_from(255), "000000000000000000000000000000ff");
    assert_eq!(session_id_from(u128::MAX), "ffffffffffffffffffffffffffffffff");
    assert_eq!(session_id_from(0x0123_4567_89ab_cdef_0011_2233_4455_6677), "0123456789abcdef0011223344556677");
}

#[test]
fn session_id_decodes_to_sixteen_bytes() {
    let n: u128 = 0xdead_beef_0000_0001_8000_0000_0000_00ff;
    let id = session_id_from(n);
    assert_eq!(id.len(), 32);
    assert!(is_lower_hex(&id));
    assert_eq!(u128::from_str_radix(&id, 16).unwrap(), n);
    assert_eq!(u128::from_str_radix(&id, 16).unwrap().to_be_bytes().len(), 16);
}

#[test]
fn new_session_ids_are_fresh_hex() {
    let mut rng = ChaCha20Rng::seed_from_u64(7);
    let a = new_session_id(&mut rng);
    let b = new_session_id(&mut rng);
    assert_eq!(a.len(), 32);
    assert_eq!(b.len(), 32);
    assert!(is_lower_hex(&a) && is_lower_hex(&b));
    assert_ne!(a, b);
}

#[test]
fn session_cookie_takes_last_value() {
    let headers = vec![s("theme=dark; session-id=abc"), s("session-id=def; other=1")];
    assert_eq!(session_cookie_id(&headers), Some(s("def")));
    assert_eq!(session_cookie_id(&vec![s("theme=dark")]), None);
    assert_eq!(session_cookie_id(&vec![]), None);
}

#[test]
fn record_parses_fields() {
    let item = stored("abc", "1700000000", vec![entry("count", AttrValue::N(s("3")))]);
    let (id, expires, rest) = parse_record(item).unwrap();
    assert_eq!(id, "abc");
    assert_eq!(expires, 1_700_000_000);
    assert_eq!(rest.len(), 1);
    assert_eq!(count_of(&rest), 3);
}

#[test]
fn malformed_records_are_unusable() {
    assert!(parse_record(vec![entry("expires", AttrValue::N(s("10")))]).is_none());
    assert!(parse_record(vec![entry("id", AttrValue::S(s("a")))]).is_none());
    assert!(parse_record(vec![entry("id", AttrValue::N(s("1"))), entry("expires", AttrValue::N(s("10")))]).is_none());
    assert!(parse_record(vec![entry("id", AttrValue::S(s("a"))), entry("expires", AttrValue::S(s("10")))]).is_none());
    assert!(parse_record(stored("a", "soon", vec![])).is_none());
    assert!(parse_record(stored("a", "99999999999999999999", vec![])).is_none());
}

#[test]
fn expired_record_is_unusable() {
    assert!(usable_record(Some(stored("a", "100", vec![])), 100).is_none());
    assert!(usable_record(Some(stored("a", "100", vec![])), 150).is_none());
    let live = usable_record(Some(stored("a", "100", vec![])), 99).unwrap();
    assert_eq!(live.id, "a");
    assert_eq!(live.expires, 100);
    assert!(usable_record(None, 0).is_none());
}

#[test]
fn expiry_beyond_calendar_is_unusable() {
    assert!(usable_record(Some(stored("a", "9223372036854775807", vec![])), 0).is_none());
    assert!(usable_record(Some(stored("a", "253402300799", vec![])), 0).is_some());
}

#[test]
fn fresh_session_expires_after_ttl() {
    let mut rng = ChaCha20Rng::seed_from_u64(1);
    let s1 = resolve_session(None, 1_000, 600_000_000, 60, 500_000_000, &mut rng);
    assert_eq!(s1.expires, 1_061);
    assert!(s1.attributes.is_empty());
    assert_eq!(s1.id.len(), 32);
    let s2 = resolve_session(None, 1_000, 0, 60, 0, &mut rng);
    assert_eq!(s2.expires, 1_060);
    let f = Session::fresh(5, 10, 0, 20, 0);
    assert_eq!(f.id, "00000000000000000000000000000005");
    assert_eq!(f.expires, 30);
}

#[test]
fn unchanged_attributes_are_not_written() {
    let session = Session { id: s("a"), expires: 50, attributes: vec![entry("x", AttrValue::S(s("1"))), entry("y", AttrValue::Bool(true))] };
    let same_reordered = vec![entry("y", AttrValue::Bool(true)), entry("x", AttrValue::S(s("1")))];
    assert!(persist(&session, same_reordered).is_none());
    let empty = Session { id: s("a"), expires: 50, attributes: vec![] };
    assert!(persist(&empty, vec![]).is_none());
}

#[test]
fn changed_attributes_are_written_whole() {
    let session = Session { id: s("a"), expires: -5, attributes: vec![entry("x", AttrValue::S(s("1")))] };
    let item = persist(&session, vec![entry("x", AttrValue::S(s("2")))]).unwrap();
    assert_eq!(item.len(), 3);
    assert_eq!(item[0].0, "id");
    assert!(matches!(&item[0].1, AttrValue::S(v) if v == "a"));
    assert_eq!(item[1].0, "expires");
    assert!(matches!(&item[1].1, AttrValue::N(v) if v == "-5"));
    assert_eq!(item[2].0, "x");
    assert!(matches!(&item[2].1, AttrValue::S(v) if v == "2"));
    let dropped = persist(&session, vec![]).unwrap();
    assert_eq!(dropped.len(), 2);
}

#[test]
fn nested_values_compare_by_content() {
    let m1 = || AttrValue::M(vec![entry("a", AttrValue::N(s("1"))), entry("b", AttrValue::L(vec![AttrValue::Null(true)]))]);
    let m2 = AttrValue::M(vec![entry("b", AttrValue::L(vec![AttrValue::Null(true)])), entry("a", AttrValue::N(s("1")))]);
    let m3 = AttrValue::M(vec![entry("b", AttrValue::L(vec![AttrValue::Null(false)])), entry("a", AttrValue::N(s("1")))]);
    assert!(same_attributes(&vec![entry("k", m1())], &vec![entry("k", m2)]));
    assert!(!same_attributes(&vec![entry("k", m1())], &vec![entry("k", m3)]));
    let l1 = AttrValue::Ss(vec![s("p"), s("q")]);
    let l2 = AttrValue::Ss(vec![s("q"), s("p")]);
    assert!(!same_attributes(&vec![entry("k", l1)], &vec![entry("k", l2)]));
    assert!(!same_attributes(&vec![entry("k", AttrValue::B(vec![1]))], &vec![entry("j", AttrValue::B(vec![1]))]));
}

#[test]
fn session_cookie_header() {
    let c = session_cookie(&s("0123456789abcdef0123456789abcdef"));
    assert_eq!(c.to_header(), "session-id=0123456789abcdef0123456789abcdef; HttpOnly; Secure");
}

#[test]
fn counter_survives_two_requests() {
    let mut rng = ChaCha20Rng::seed_from_u64(3);
    let now = 1_700_000_000;
    // first request: no cookie, so no record is read
    let id = session_cookie_id(&vec![]);
    assert!(id.is_none());
    let first = resolve_session(None, now, 0, 60, 0, &mut rng);
    let count = count_of(&first.attributes) + 1;
    assert_eq!(count, 1);
    let written = persist(&first, vec![entry("count", AttrValue::N(count.to_string()))]).unwrap();
    let header = session_cookie(&first.id).to_header();
    assert!(header.starts_with("session-id="));
    let sent = &header["session-id=".len().."session-id=".len() + 32];
    assert!(is_lower_hex(sent));
    // second request presents the cookie; the store holds what was written
    let cookie = format!("session-id={}", sent);
    let id = session_cookie_id(&vec![cookie]).unwrap();
    assert_eq!(id, first.id);
    let second = resolve_session(Some(written), now + 10, 0, 60, 0, &mut rng);
    assert_eq!(second.id, first.id);
    assert_eq!(count_of(&second.attributes), 1);
    let count = count_of(&second.attributes) + 1;
    let writes: Vec<_> = persist(&second, vec![entry("count", AttrValue::N(count.to_string()))]).into_iter().collect();
    assert_eq!(writes.len(), 1);
    assert_eq!(count_of(&writes[0][2..]), 2);
}

#[test]
fn written_record_reads_back() {
    let session = Session { id: s("abc"), expires: -9_000_000_000, attributes: vec![] };
    let attrs = vec![entry("m", AttrValue::M(vec![entry("n", AttrValue::Ns(vec![s("1"), s("2")]))]))];
    let item = persist(&session, attrs).unwrap();
    let (id, expires, rest) = parse_record(item).unwrap();
    assert_eq!(id, "abc");
    assert_eq!(expires, -9_000_000_000);
    assert_eq!(rest.len(), 1);
    assert_eq!(rest[0].0, "m");
}

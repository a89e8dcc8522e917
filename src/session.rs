//! A session kept in a key-value store and named by a cookie.
//!
//! Around each request the service asks the library what to do: which
//! record to read ([`session_cookie_id`]), which session the request works
//! with ([`resolve_session`]), whether and what to write back ([`persist`]),
//! and which cookie to set ([`session_cookie`]). The service performs the
//! reads and writes.

use crate::attribute::same_entries;
use crate::attribute::same_attributes;
use crate::attribute::AttrValue;
use crate::cookie::cookie_pieces;
use crate::cookie::pieces_view;
use crate::cookie_jar::texts;
use crate::cookie::split_cookie_header;
use crate::cookie::Cookie;
use crate::cookie::CookieView;
use crate::decimal::decimal_of;
use crate::decimal::decimal_text;
use crate::decimal::lemma_decimal_round_trip;
use crate::decimal::parse_i64;
use crate::decimal::parsed_i64;
use crate::session_id::id_text;
use crate::session_id::is_session_id;
use crate::session_id::lemma_session_id_decodes;
use crate::session_id::session_id_from;
use rand_chacha::ChaCha20Rng;
use vstd::prelude::*;

verus! {

/// The name of the cookie that carries the session identifier.
pub open spec fn session_cookie_name() -> Seq<char> {
    seq!['s', 'e', 's', 's', 'i', 'o', 'n', '-', 'i', 'd']
}

/// The attribute under which a record stores its identifier.
pub open spec fn id_field() -> Seq<char> {
    seq!['i', 'd']
}

/// The attribute under which a record stores its expiry, a Unix time in
/// seconds written in decimal.
pub open spec fn expires_field() -> Seq<char> {
    seq!['e', 'x', 'p', 'i', 'r', 'e', 's']
}

/// The pieces of a list of `Cookie` header values, in order.
pub open spec fn pieces_in(headers: Seq<Seq<char>>) -> Seq<Option<(Seq<char>, Seq<char>)>>
    decreases headers.len(),
{
    if headers.len() == 0 {
        seq![]
    } else {
        pieces_in(headers.drop_last()) + cookie_pieces(headers.last())
    }
}

/// The value of the last piece named `n`, if any.
pub open spec fn last_value(p: Seq<Option<(Seq<char>, Seq<char>)>>, n: Seq<char>) -> Option<Seq<char>>
    decreases p.len(),
{
    if p.len() == 0 {
        None
    } else {
        match p.last() {
            Some((m, v)) => if m == n {
                Some(v)
            } else {
                last_value(p.drop_last(), n)
            },
            None => last_value(p.drop_last(), n),
        }
    }
}

proof fn lemma_last_value_append(
    p: Seq<Option<(Seq<char>, Seq<char>)>>,
    q: Seq<Option<(Seq<char>, Seq<char>)>>,
    k: int,
    n: Seq<char>,
)
    requires
        0 <= k < q.len(),
    ensures
        last_value(p + q.subrange(0, k + 1), n) == match q[k] {
            Some((m, v)) => if m == n {
                Some(v)
            } else {
                last_value(p + q.subrange(0, k), n)
            },
            None => last_value(p + q.subrange(0, k), n),
        },
{
    assert((p + q.subrange(0, k + 1)).drop_last() =~= p + q.subrange(0, k));
    assert((p + q.subrange(0, k + 1)).last() == q[k]);
}

/// The session identifier that the `Cookie` header values `headers` carry:
/// the value of the last cookie named `session-id`.
pub fn session_cookie_id(headers: &Vec<String>) -> (r: Option<String>)
    ensures
        match r {
            Some(v) => last_value(pieces_in(texts(headers@)), session_cookie_name()) == Some(v@),
            None => last_value(pieces_in(texts(headers@)), session_cookie_name()).is_none(),
        },
{
    let name = "session-id".to_owned();
    proof {
        reveal_strlit("session-id");
    }
    assert(name@ =~= session_cookie_name());
    let mut found: Option<String> = None;
    let mut i: usize = 0;
    while i < headers.len()
        invariant
            i <= headers@.len(),
            name@ == session_cookie_name(),
            match found {
                Some(v) => last_value(pieces_in(texts(headers@.subrange(0, i as int))), name@) == Some(v@),
                None => last_value(pieces_in(texts(headers@.subrange(0, i as int))), name@).is_none(),
            },
        decreases headers@.len() - i,
    {
        let pieces = split_cookie_header(headers[i].as_str());
        let ghost before = pieces_in(texts(headers@.subrange(0, i as int)));
        let ghost pv = pieces_view(pieces@);
        let mut k: usize = 0;
        while k < pieces.len()
            invariant
                i < headers@.len(),
                k <= pieces@.len(),
                name@ == session_cookie_name(),
                pv == pieces_view(pieces@),
                match found {
                    Some(v) => last_value(before + pv.subrange(0, k as int), name@) == Some(v@),
                    None => last_value(before + pv.subrange(0, k as int), name@).is_none(),
                },
            decreases pieces@.len() - k,
        {
            proof {
                lemma_last_value_append(before, pv, k as int, name@);
            }
            match &pieces[k] {
                Some((n, v)) => {
                    assert(pv[k as int] == Some((n@, v@)));
                    if *n == name {
                        found = Some(v.clone());
                    }
                },
                None => {
                    assert(pv[k as int].is_none());
                },
            }
            k = k + 1;
        }
        proof {
            let hs = texts(headers@.subrange(0, i + 1));
            assert(hs.drop_last() =~= texts(headers@.subrange(0, i as int)));
            assert(pv.subrange(0, pieces@.len() as int) =~= pv);
            assert(pv == cookie_pieces(headers@[i as int]@));
        }
        i = i + 1;
    }
    assert(headers@.subrange(0, headers@.len() as int) =~= headers@);
    found
}

/// Some entry of `s` has the name `n`.
pub open spec fn has_field(s: Seq<(String, AttrValue)>, n: Seq<char>) -> bool {
    exists|i: int| 0 <= i < s.len() && #[trigger] s[i].0@ == n
}

/// The place of the first entry of `s` named `n`.
pub open spec fn first_field(s: Seq<(String, AttrValue)>, n: Seq<char>) -> int {
    choose|i: int| 0 <= i < s.len() && s[i].0@ == n && forall|k: int| 0 <= k < i ==> #[trigger] s[k].0@ != n
}

/// The value of the first entry of `s` named `n`, and `s` without it.
pub open spec fn take_field(s: Seq<(String, AttrValue)>, n: Seq<char>) -> (Option<AttrValue>, Seq<(String, AttrValue)>) {
    if has_field(s, n) {
        (Some(s[first_field(s, n)].1), s.remove(first_field(s, n)))
    } else {
        (None, s)
    }
}

/// The identifier, the expiry and the other attributes of a stored record:
/// its `id` must be a string and its `expires` a number that parses as an
/// `i64`.
pub open spec fn parsed_record(item: Seq<(String, AttrValue)>) -> Option<(Seq<char>, i64, Seq<(String, AttrValue)>)> {
    let (id, rest) = take_field(item, id_field());
    let (expires, rest) = take_field(rest, expires_field());
    match (id, expires) {
        (Some(AttrValue::S(i)), Some(AttrValue::N(e))) => match parsed_i64(e@) {
            Some(t) => Some((i@, t, rest)),
            None => None,
        },
        _ => None,
    }
}

proof fn lemma_first_field(s: Seq<(String, AttrValue)>, n: Seq<char>, i: int)
    requires
        0 <= i < s.len(),
        s[i].0@ == n,
        forall|k: int| 0 <= k < i ==> #[trigger] s[k].0@ != n,
    ensures
        has_field(s, n),
        first_field(s, n) == i,
{
    assert(has_field(s, n));
    let j = first_field(s, n);
    if j < i {
        assert(s[j].0@ != n);
    } else if j > i {
        assert(s[i].0@ != n);
    }
}

fn take(item: &mut Vec<(String, AttrValue)>, n: &String) -> (r: Option<AttrValue>)
    ensures
        (r, final(item)@) == take_field(old(item)@, n@),
{
    let mut i: usize = 0;
    while i < item.len()
        invariant
            i <= item@.len(),
            item@ == old(item)@,
            forall|k: int| 0 <= k < i ==> #[trigger] item@[k].0@ != n@,
        decreases item@.len() - i,
    {
        if item[i].0 == *n {
            proof {
                lemma_first_field(item@, n@, i as int);
            }
            let e = item.remove(i);
            let (_, v) = e;
            return Some(v);
        }
        i = i + 1;
    }
    assert(!has_field(item@, n@));
    None
}

/// Reads a stored record into its identifier, its expiry and its other
/// attributes, as [`parsed_record`] says; `None` where it lacks either field
/// or either has the wrong form.
pub fn parse_record(item: Vec<(String, AttrValue)>) -> (r: Option<(String, i64, Vec<(String, AttrValue)>)>)
    ensures
        match r {
            Some((i, t, rest)) => parsed_record(item@) == Some((i@, t, rest@)),
            None => parsed_record(item@).is_none(),
        },
{
    let mut rest = item;
    let id_name = "id".to_owned();
    let expires_name = "expires".to_owned();
    proof {
        reveal_strlit("id");
        reveal_strlit("expires");
    }
    assert(id_name@ =~= id_field());
    assert(expires_name@ =~= expires_field());
    let id = take(&mut rest, &id_name);
    let expires = take(&mut rest, &expires_name);
    match id {
        Some(AttrValue::S(i)) => match expires {
            Some(AttrValue::N(e)) => match parse_i64(e.as_str()) {
                Some(t) => Some((i, t, rest)),
                None => None,
            },
            _ => None,
        },
        _ => None,
    }
}

/// Whether chrono represents the Unix time `secs` (in seconds) as a date.
pub uninterp spec fn timestamp_in_range(secs: i64) -> bool;

/// Relies on `chrono::DateTime::from_timestamp(secs, 0)`: whether chrono has
/// a date for the Unix time `secs`.
#[verifier::external_body]
fn representable(secs: i64) -> (r: bool)
    ensures
        r == timestamp_in_range(secs),
{
    chrono::DateTime::from_timestamp(secs, 0).is_some()
}

/// The session a request works with: its identifier, its expiry as a Unix
/// time in seconds, and its attributes as loaded.
pub struct Session {
    pub id: String,
    pub expires: i64,
    pub attributes: Vec<(String, AttrValue)>,
}

/// The expiry of a session created at `now` that lives for `ttl`, both
/// given as whole seconds and nanoseconds: the whole seconds of their sum.
pub open spec fn expiry(now_secs: i64, now_nanos: u32, ttl_secs: u64, ttl_nanos: u32) -> int {
    now_secs + ttl_secs + (if now_nanos as int + ttl_nanos as int >= 1_000_000_000 { 1int } else { 0int })
}

/// Whether a stored record may serve the request: it was read and parses,
/// chrono has a date for its expiry, and `now` comes before that expiry.
pub open spec fn usable(item: Option<Seq<(String, AttrValue)>>, now_secs: i64) -> bool {
    match item {
        Some(it) => match parsed_record(it) {
            Some((_, t, _)) => timestamp_in_range(t) && now_secs < t,
            None => false,
        },
        None => false,
    }
}

pub open spec fn item_view(item: Option<Vec<(String, AttrValue)>>) -> Option<Seq<(String, AttrValue)>> {
    match item {
        Some(v) => Some(v@),
        None => None,
    }
}

impl Session {
    /// The session of a parsed record, if it is still live at `now_secs`;
    /// `representable` tells whether chrono has a date for its expiry.
    pub fn if_live(record: (String, i64, Vec<(String, AttrValue)>), representable: bool, now_secs: i64) -> (r: Option<Session>)
        ensures
            match r {
                Some(s) => representable && now_secs < record.1 && s.id@ == record.0@ && s.expires == record.1
                    && s.attributes@ == record.2@,
                None => !(representable && now_secs < record.1),
            },
    {
        let (id, expires, attributes) = record;
        if representable && now_secs < expires {
            Some(Session { id, expires, attributes })
        } else {
            None
        }
    }

    /// A new session named by the number `n`, created at `now` and living
    /// for `ttl`, with no attribute.
    pub fn fresh(n: u128, now_secs: i64, now_nanos: u32, ttl_secs: u64, ttl_nanos: u32) -> (r: Session)
        requires
            now_nanos < 1_000_000_000,
            ttl_nanos < 1_000_000_000,
            now_secs + ttl_secs + 1 <= i64::MAX,
        ensures
            r.id@ == id_text(n as nat),
            r.expires == expiry(now_secs, now_nanos, ttl_secs, ttl_nanos),
            r.attributes@.len() == 0,
    {
        let carry: i64 = if now_nanos as u64 + ttl_nanos as u64 >= 1_000_000_000 { 1 } else { 0 };
        let expires = (now_secs as i128 + ttl_secs as i128 + carry as i128) as i64;
        Session { id: session_id_from(n), expires, attributes: Vec::new() }
    }
}

/// The session stored in `item`, the record read under the session cookie
/// (`None` where there was no cookie or no record), if it may serve the
/// request at `now_secs`.
pub fn usable_record(item: Option<Vec<(String, AttrValue)>>, now_secs: i64) -> (r: Option<Session>)
    ensures
        r.is_some() == usable(item_view(item), now_secs),
        match r {
            Some(s) => parsed_record(item_view(item)->0) == Some((s.id@, s.expires, s.attributes@)),
            None => true,
        },
{
    match item {
        Some(it) => match parse_record(it) {
            Some(record) => {
                let ok = representable(record.1);
                Session::if_live(record, ok, now_secs)
            },
            None => None,
        },
        None => None,
    }
}

/// The session for a request: the stored one where it may serve at `now`,
/// else a new one named by a fresh draw of `rng`, expiring after `ttl`,
/// with no attribute.
pub fn resolve_session(
    item: Option<Vec<(String, AttrValue)>>,
    now_secs: i64,
    now_nanos: u32,
    ttl_secs: u64,
    ttl_nanos: u32,
    rng: &mut ChaCha20Rng,
) -> (r: Session)
    requires
        now_nanos < 1_000_000_000,
        ttl_nanos < 1_000_000_000,
        now_secs + ttl_secs + 1 <= i64::MAX,
    ensures
        usable(item_view(item), now_secs) ==> parsed_record(item_view(item)->0) == Some(
            (r.id@, r.expires, r.attributes@),
        ),
        !usable(item_view(item), now_secs) ==> {
            &&& is_session_id(r.id@)
            &&& r.expires == expiry(now_secs, now_nanos, ttl_secs, ttl_nanos)
            &&& r.attributes@.len() == 0
        },
{
    match usable_record(item, now_secs) {
        Some(s) => s,
        None => {
            let n = crate::session_id::draw_u128(rng);
            proof {
                lemma_session_id_decodes(n);
            }
            Session::fresh(n, now_secs, now_nanos, ttl_secs, ttl_nanos)
        },
    }
}

/// `item` is the record written for the session `id`, `expires` with the
/// attributes `attributes`: the identifier, the expiry in decimal, then the
/// attributes, each overwriting what came before under its name.
pub open spec fn written(id: Seq<char>, expires: i64, attributes: Seq<(String, AttrValue)>, item: Seq<(String, AttrValue)>) -> bool {
    &&& item.len() == attributes.len() + 2
    &&& item[0].0@ == id_field()
    &&& item[0].1 matches AttrValue::S(s) && s@ == id
    &&& item[1].0@ == expires_field()
    &&& item[1].1 matches AttrValue::N(t) && t@ == decimal_of(expires as int)
    &&& item.subrange(2, item.len() as int) == attributes
}

/// A record written by [`persist`] reads back through [`parse_record`] as
/// the session it was written for: the same identifier, expiry and
/// attributes.
pub proof fn lemma_written_record_reads_back(
    id: Seq<char>,
    expires: i64,
    attributes: Seq<(String, AttrValue)>,
    item: Seq<(String, AttrValue)>,
)
    requires
        written(id, expires, attributes, item),
    ensures
        parsed_record(item) == Some((id, expires, attributes)),
{
    lemma_first_field(item, id_field(), 0);
    let r1 = item.remove(0);
    assert(r1[0] == item[1]);
    lemma_first_field(r1, expires_field(), 0);
    assert(r1.remove(0) =~= item.subrange(2, item.len() as int));
    lemma_decimal_round_trip(expires);
}

/// What to write back after the handler: nothing where the attributes equal
/// those loaded, else the whole record, which replaces the stored one.
pub fn persist(session: &Session, attributes: Vec<(String, AttrValue)>) -> (r: Option<Vec<(String, AttrValue)>>)
    ensures
        r.is_none() <==> same_entries(session.attributes@, attributes@),
        match r {
            Some(item) => written(session.id@, session.expires, attributes@, item@),
            None => true,
        },
{
    if same_attributes(&session.attributes, &attributes) {
        return None;
    }
    let id_name = "id".to_owned();
    let expires_name = "expires".to_owned();
    proof {
        reveal_strlit("id");
        reveal_strlit("expires");
    }
    assert(id_name@ =~= id_field());
    assert(expires_name@ =~= expires_field());
    let mut item: Vec<(String, AttrValue)> = Vec::new();
    item.push((id_name, AttrValue::S(session.id.clone())));
    item.push((expires_name, AttrValue::N(decimal_text(session.expires))));
    let mut rest = attributes;
    let ghost all = rest@;
    item.append(&mut rest);
    assert(item@.subrange(2, item@.len() as int) =~= all);
    Some(item)
}

/// The cookie that names the session `id` to the client: `session-id`,
/// `HttpOnly` and `Secure`, with no expiry, so that it lasts as long as the
/// browser session.
pub fn session_cookie(id: &String) -> (r: Cookie)
    ensures
        r@ == (CookieView {
            name: session_cookie_name(),
            value: id@,
            http_only: Some(true),
            secure: Some(true),
            path: None,
            domain: None,
            max_age: None,
            expires: None,
        }),
{
    let name = "session-id".to_owned();
    proof {
        reveal_strlit("session-id");
    }
    assert(name@ =~= session_cookie_name());
    let mut c = Cookie::new(name, id.clone());
    c.http_only = Some(true);
    c.secure = Some(true);
    c
}

/// A value kept in the session, under the attribute `storage`.
pub struct Storage<T>(pub T);

} // verus!

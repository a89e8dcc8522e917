//! A private cookie jar: cookies whose values travel encrypted under a
//! remote key, held here as plaintext for the duration of one request.
//!
//! Building a jar and finishing it each take one remote call per cookie.
//! The jar names the calls to make ([`PrivateCookieJar::sealed_cookies`],
//! [`PrivateCookieJar::plaintexts`]) and decides from their outcomes
//! ([`PrivateCookieJar::from_decrypted`], [`PrivateCookieJar::finish`]); the
//! caller makes the calls, all at once.

use crate::codec::b64url_decode;
use crate::codec::b64url_decoded;
use crate::codec::b64url_encode;
use crate::codec::b64url_encoded;
use crate::codec::utf8_decode;
use crate::codec::utf8_decoded;
use crate::codec::utf8_encode;
use crate::cookie::bare;
use crate::cookie::cookie_pieces;
use crate::cookie::removal_view;
use crate::cookie::sealed_view;
use crate::cookie::set_cookie_text;
use crate::cookie::split_cookie_header;
use crate::cookie::Cookie;
use crate::cookie::CookieView;
use vstd::prelude::*;

verus! {

/// The identifier of the remote key that seals the jar's cookies.
#[derive(Clone)]
pub struct KeyId(String);

impl View for KeyId {
    type V = Seq<char>;

    closed spec fn view(&self) -> Seq<char> {
        self.0@
    }
}

impl KeyId {
    pub fn new(key_id: String) -> (r: KeyId)
        ensures
            r@ == key_id@,
    {
        KeyId(key_id)
    }

    pub fn as_str(&self) -> (r: &str)
        ensures
            r@ == self@,
    {
        self.0.as_str()
    }
}

pub open spec fn views(s: Seq<Cookie>) -> Seq<CookieView> {
    s.map_values(|c: Cookie| c@)
}

/// No two cookies of `s` share a name.
pub open spec fn unique_names(s: Seq<CookieView>) -> bool {
    forall|i: int, j: int|
        0 <= i < s.len() && 0 <= j < s.len() && i != j ==> s[i].name != s[j].name
}

/// Some cookie of `s` has the name `n`.
pub open spec fn named(s: Seq<CookieView>, n: Seq<char>) -> bool {
    exists|i: int| 0 <= i < s.len() && s[i].name == n
}

/// The place in `s` of a cookie named `n`.
pub open spec fn index_of(s: Seq<CookieView>, n: Seq<char>) -> int {
    choose|i: int| 0 <= i < s.len() && s[i].name == n
}

/// The cookies of `s` by name.
pub open spec fn cookie_map(s: Seq<CookieView>) -> Map<Seq<char>, CookieView> {
    Map::new(|n: Seq<char>| named(s, n), |n: Seq<char>| s[index_of(s, n)])
}

/// `s` with `c` in place of the cookie of the same name, or with `c` added
/// at the end where there is none.
pub open spec fn upsert(s: Seq<CookieView>, c: CookieView) -> Seq<CookieView> {
    if named(s, c.name) {
        s.update(index_of(s, c.name), c)
    } else {
        s.push(c)
    }
}

/// `s` without the cookie named `n`.
pub open spec fn without(s: Seq<CookieView>, n: Seq<char>) -> Seq<CookieView> {
    if named(s, n) {
        s.remove(index_of(s, n))
    } else {
        s
    }
}

proof fn lemma_index_of(s: Seq<CookieView>, i: int)
    requires
        unique_names(s),
        0 <= i < s.len(),
    ensures
        named(s, s[i].name),
        index_of(s, s[i].name) == i,
{
    assert(named(s, s[i].name));
}

proof fn lemma_upsert(s: Seq<CookieView>, c: CookieView)
    requires
        unique_names(s),
    ensures
        unique_names(upsert(s, c)),
        cookie_map(upsert(s, c)) == cookie_map(s).insert(c.name, c),
{
    let t = upsert(s, c);
    if named(s, c.name) {
        let k = index_of(s, c.name);
        assert forall|i: int, j: int|
            0 <= i < t.len() && 0 <= j < t.len() && i != j implies t[i].name != t[j].name by {
            if i != k && j != k {
            } else if i == k {
                assert(s[k].name == c.name);
            } else {
                assert(s[k].name == c.name);
            }
        }
    }
    assert forall|n: Seq<char>| named(t, n) <==> (named(s, n) || n == c.name) by {
        if named(t, n) {
            let i = index_of(t, n);
            if n != c.name {
                if named(s, c.name) {
                    assert(s[i].name == n);
                } else {
                    assert(i < s.len());
                    assert(s[i].name == n);
                }
            }
        }
        if named(s, n) && named(s, c.name) && n == c.name {
            assert(t[index_of(s, c.name)].name == n);
        }
        if named(s, n) && n != c.name {
            let i = index_of(s, n);
            assert(t[i].name == n);
        }
        if n == c.name && !named(s, n) {
            assert(t[s.len() as int].name == n);
        }
    }
    assert forall|n: Seq<char>| named(t, n) implies #[trigger] t[index_of(t, n)] == cookie_map(s).insert(c.name, c)[n] by {
        let i = index_of(t, n);
        lemma_index_of(t, i);
        if n != c.name {
            assert(s[i].name == n);
            lemma_index_of(s, i);
        }
    }
    assert(cookie_map(t) =~= cookie_map(s).insert(c.name, c));
}

proof fn lemma_without(s: Seq<CookieView>, n: Seq<char>)
    requires
        unique_names(s),
    ensures
        unique_names(without(s, n)),
        cookie_map(without(s, n)) == cookie_map(s).remove(n),
{
    let t = without(s, n);
    if named(s, n) {
        let k = index_of(s, n);
        assert forall|i: int| 0 <= i < t.len() implies #[trigger] t[i] == (if i < k { s[i] } else { s[i + 1] }) by {
        }
        assert forall|i: int, j: int|
            0 <= i < t.len() && 0 <= j < t.len() && i != j implies t[i].name != t[j].name by {
            let a = if i < k { i } else { i + 1 };
            let b = if j < k { j } else { j + 1 };
            assert(t[i] == s[a] && t[j] == s[b]);
        }
        assert forall|m: Seq<char>| named(t, m) <==> (named(s, m) && m != n) by {
            if named(t, m) {
                let i = index_of(t, m);
                let a = if i < k { i } else { i + 1 };
                assert(t[i] == s[a]);
                assert(s[a].name == m);
                assert(a != k);
            }
            if named(s, m) && m != n {
                let a = index_of(s, m);
                assert(a != k);
                let i = if a < k { a } else { a - 1 };
                assert(t[i] == s[a]);
            }
        }
        assert forall|m: Seq<char>| named(t, m) implies #[trigger] t[index_of(t, m)] == cookie_map(s).remove(n)[m] by {
            let i = index_of(t, m);
            lemma_index_of(t, i);
            let a = if i < k { i } else { i + 1 };
            assert(t[i] == s[a]);
            lemma_index_of(s, a);
        }
    } else {
        assert forall|m: Seq<char>| named(t, m) <==> (named(s, m) && m != n) by {
        }
    }
    assert(cookie_map(t) =~= cookie_map(s).remove(n));
}

fn position(v: &Vec<Cookie>, name: &String) -> (r: Option<usize>)
    ensures
        match r {
            Some(i) => i < v@.len() && v@[i as int].name@ == name@,
            None => !named(views(v@), name@),
        },
{
    let mut i: usize = 0;
    while i < v.len()
        invariant
            i <= v@.len(),
            forall|j: int| 0 <= j < i ==> v@[j].name@ != name@,
        decreases v@.len() - i,
    {
        if v[i].name == *name {
            return Some(i);
        }
        i = i + 1;
    }
    proof {
        if named(views(v@), name@) {
            let j = index_of(views(v@), name@);
            assert(v@[j].name@ == name@);
        }
    }
    None
}

/// A cookie as it arrived, its payload decoded from base64 and still sealed.
pub struct Sealed {
    pub name: String,
    pub ciphertext: Vec<u8>,
}

/// How a `Decrypt` call for one sealed cookie ended.
pub enum DecryptOutcome {
    /// The call succeeded and returned these plaintext bytes.
    Plaintext(Vec<u8>),
    /// The call succeeded but returned no plaintext.
    NoPlaintext,
    /// The service found the ciphertext invalid: tampered, foreign, or sealed
    /// under a key that has since been retired.
    InvalidCiphertext,
    /// The service found that the ciphertext was sealed under another key.
    IncorrectKey,
    /// Any other failure: the service was unreachable, throttled the call,
    /// refused it, or failed.
    Failure,
}

/// How an `Encrypt` call for one cookie ended.
pub enum EncryptOutcome {
    /// The call succeeded and returned this ciphertext.
    Ciphertext(Vec<u8>),
    /// The call succeeded but returned no ciphertext.
    NoCiphertext,
    /// The call failed.
    Failure,
}

/// Why a jar could not be built or finished: the position of the first
/// remote call, in the order the jar listed them, that failed.
pub enum JarError {
    Decrypt(usize),
    Encrypt(usize),
}

/// A failure that aborts building the jar; every other outcome drops or
/// keeps one cookie.
pub open spec fn is_hard(o: DecryptOutcome) -> bool {
    o is Failure
}

/// What one outcome leaves for the jar: the plaintext bytes, if any.
pub open spec fn plaintext_of(o: DecryptOutcome) -> Option<Seq<u8>> {
    match o {
        DecryptOutcome::Plaintext(p) => Some(p@),
        _ => None,
    }
}

pub open spec fn outcome_views(o: Seq<(String, DecryptOutcome)>) -> Seq<(Seq<char>, Option<Seq<u8>>)> {
    o.map_values(|x: (String, DecryptOutcome)| (x.0@, plaintext_of(x.1)))
}

/// The cookies that a list of decryption results leaves: each name whose
/// plaintext is valid UTF-8 holds that text; a later cookie of the same name
/// takes the place of an earlier one.
pub open spec fn opened(o: Seq<(Seq<char>, Option<Seq<u8>>)>) -> Seq<CookieView>
    decreases o.len(),
{
    if o.len() == 0 {
        seq![]
    } else {
        let r = opened(o.drop_last());
        match o.last().1 {
            Some(p) => match utf8_decoded(p) {
                Some(t) => upsert(r, bare(o.last().0, t)),
                None => r,
            },
            None => r,
        }
    }
}

/// The sealed cookies in the pieces of one `Cookie` header: the pieces that
/// parse and whose value is valid base64, with the decoded payload.
pub open spec fn decodable(p: Seq<Option<(Seq<char>, Seq<char>)>>) -> Seq<(Seq<char>, Seq<u8>)>
    decreases p.len(),
{
    if p.len() == 0 {
        seq![]
    } else {
        let r = decodable(p.drop_last());
        match p.last() {
            Some((n, v)) => match b64url_decoded(v) {
                Some(c) => r.push((n, c)),
                None => r,
            },
            None => r,
        }
    }
}

/// The sealed cookies in a list of `Cookie` header values, in order.
pub open spec fn sealed_in(headers: Seq<Seq<char>>) -> Seq<(Seq<char>, Seq<u8>)>
    decreases headers.len(),
{
    if headers.len() == 0 {
        seq![]
    } else {
        sealed_in(headers.drop_last()) + decodable(cookie_pieces(headers.last()))
    }
}

pub open spec fn sealed_views(s: Seq<Sealed>) -> Seq<(Seq<char>, Seq<u8>)> {
    s.map_values(|x: Sealed| (x.name@, x.ciphertext@))
}

pub open spec fn texts(s: Seq<String>) -> Seq<Seq<char>> {
    s.map_values(|x: String| x@)
}

/// `c` is new or carries another value than the cookie of its name in
/// `initial`.
pub open spec fn changed(initial: Seq<CookieView>, c: CookieView) -> bool {
    !named(initial, c.name) || initial[index_of(initial, c.name)].value != c.value
}

/// The cookies of `current` that are new or changed since `initial`, in
/// order.
pub open spec fn delta_of(initial: Seq<CookieView>, current: Seq<CookieView>) -> Seq<CookieView>
    decreases current.len(),
{
    if current.len() == 0 {
        seq![]
    } else {
        let r = delta_of(initial, current.drop_last());
        if changed(initial, current.last()) {
            r.push(current.last())
        } else {
            r
        }
    }
}

/// The cookies of `initial` whose name `current` no longer holds, in order.
pub open spec fn removed_of(current: Seq<CookieView>, initial: Seq<CookieView>) -> Seq<CookieView>
    decreases initial.len(),
{
    if initial.len() == 0 {
        seq![]
    } else {
        let r = removed_of(current, initial.drop_last());
        if !named(current, initial.last().name) {
            r.push(initial.last())
        } else {
            r
        }
    }
}

/// The ciphertext that one outcome carries, if any.
pub open spec fn ciphertext_of(o: EncryptOutcome) -> Option<Seq<u8>> {
    match o {
        EncryptOutcome::Ciphertext(c) => Some(c@),
        _ => None,
    }
}

/// The `Set-Cookie` values that a finished jar emits: one per new or changed
/// cookie, carrying its ciphertext in base64, then one removal per removed
/// cookie.
pub open spec fn headers_of(
    delta: Seq<CookieView>,
    outcomes: Seq<EncryptOutcome>,
    removed: Seq<CookieView>,
) -> Seq<Seq<char>> {
    Seq::new(
        delta.len(),
        |i: int| set_cookie_text(sealed_view(delta[i], b64url_encoded(ciphertext_of(outcomes[i])->0))),
    ) + removed.map_values(|c: CookieView| set_cookie_text(removal_view(c.name)))
}

/// The value of a [`PrivateCookieJar`]: its key, the cookies it was built
/// with, and the cookies it holds now.
pub struct JarView {
    pub key_id: Seq<char>,
    pub initial: Seq<CookieView>,
    pub current: Seq<CookieView>,
}

/// The new or changed cookies of a jar.
pub open spec fn delta(j: JarView) -> Seq<CookieView> {
    delta_of(j.initial, j.current)
}

/// The cookies removed from a jar.
pub open spec fn removed(j: JarView) -> Seq<CookieView> {
    removed_of(j.current, j.initial)
}

/// A jar of cookies kept in plaintext for one request, sealed under a remote
/// key on the wire.
pub struct PrivateCookieJar {
    initial: Vec<Cookie>,
    current: Vec<Cookie>,
    key_id: KeyId,
}

impl View for PrivateCookieJar {
    type V = JarView;

    closed spec fn view(&self) -> JarView {
        JarView {
            key_id: self.key_id@,
            initial: views(self.initial@),
            current: views(self.current@),
        }
    }
}

fn upsert_vec(v: &mut Vec<Cookie>, c: Cookie)
    requires
        unique_names(views(old(v)@)),
    ensures
        views(final(v)@) == upsert(views(old(v)@), c@),
        unique_names(views(final(v)@)),
{
    proof {
        lemma_upsert(views(v@), c@);
    }
    let ghost cv = c@;
    match position(v, &c.name) {
        Some(i) => {
            proof {
                lemma_index_of(views(v@), i as int);
            }
            v[i] = c;
            assert(views(v@) =~= upsert(views(old(v)@), cv));
        },
        None => {
            v.push(c);
            assert(views(v@) =~= upsert(views(old(v)@), cv));
        },
    }
}

fn remove_vec(v: &mut Vec<Cookie>, name: &String)
    requires
        unique_names(views(old(v)@)),
    ensures
        views(final(v)@) == without(views(old(v)@), name@),
        unique_names(views(final(v)@)),
{
    proof {
        lemma_without(views(v@), name@);
    }
    match position(v, name) {
        Some(i) => {
            proof {
                lemma_index_of(views(v@), i as int);
            }
            v.remove(i);
            assert(views(v@) =~= without(views(old(v)@), name@));
        },
        None => {},
    }
}

impl PrivateCookieJar {
    /// Names within each list are unique.
    pub open spec fn wf(&self) -> bool {
        unique_names(self@.initial) && unique_names(self@.current)
    }

    /// The sealed cookies that the `Cookie` header values `headers` carry:
    /// every piece that parses and whose value decodes as unpadded URL-safe
    /// base64, in order. A piece whose value does not decode is left out.
    pub fn sealed_cookies(headers: &Vec<String>) -> (r: Vec<Sealed>)
        ensures
            sealed_views(r@) == sealed_in(texts(headers@)),
    {
        let mut out: Vec<Sealed> = Vec::new();
        let mut i: usize = 0;
        while i < headers.len()
            invariant
                i <= headers@.len(),
                sealed_views(out@) == sealed_in(texts(headers@.subrange(0, i as int))),
            decreases headers@.len() - i,
        {
            let pieces = split_cookie_header(headers[i].as_str());
            let ghost before = sealed_views(out@);
            let mut k: usize = 0;
            while k < pieces.len()
                invariant
                    i < headers@.len(),
                    k <= pieces@.len(),
                    crate::cookie::pieces_view(pieces@) == cookie_pieces(headers@[i as int]@),
                    sealed_views(out@) == before + decodable(
                        crate::cookie::pieces_view(pieces@).subrange(0, k as int),
                    ),
                decreases pieces@.len() - k,
            {
                let ghost pv = crate::cookie::pieces_view(pieces@);
                assert(pv.subrange(0, k + 1).drop_last() =~= pv.subrange(0, k as int));
                assert(pv.subrange(0, k + 1).last() == pv[k as int]);
                match &pieces[k] {
                    Some((n, v)) => {
                        assert(pv[k as int] == Some((n@, v@)));
                        match b64url_decode(v.as_str()) {
                            Some(c) => {
                                let ghost prior = out@;
                                let item = Sealed { name: n.clone(), ciphertext: c };
                                assert((item.name@, item.ciphertext@) == (n@, c@));
                                out.push(item);
                                assert(out@ == prior.push(item));
                                assert(sealed_views(out@) =~= sealed_views(prior).push((n@, c@)));
                                assert(decodable(pv.subrange(0, k + 1)) == decodable(
                                    pv.subrange(0, k as int),
                                ).push((n@, c@)));
                                assert(sealed_views(out@) =~= before + decodable(pv.subrange(0, k + 1)));
                            },
                            None => {},
                        }
                    },
                    None => {
                        assert(pv[k as int].is_none());
                    },
                }
                k = k + 1;
            }
            proof {
                let hs = texts(headers@.subrange(0, i + 1));
                assert(hs.drop_last() =~= texts(headers@.subrange(0, i as int)));
                assert(crate::cookie::pieces_view(pieces@).subrange(0, pieces@.len() as int)
                    =~= crate::cookie::pieces_view(pieces@));
            }
            i = i + 1;
        }
        assert(headers@.subrange(0, headers@.len() as int) =~= headers@);
        out
    }

    /// Whether one decryption outcome aborts building the jar.
    pub fn is_hard_failure(o: &DecryptOutcome) -> (r: bool)
        ensures
            r == is_hard(*o),
    {
        match o {
            DecryptOutcome::Failure => true,
            _ => false,
        }
    }

    /// Builds the jar from the outcome of one `Decrypt` call per sealed
    /// cookie, under the key `key_id`. The first hard failure aborts the
    /// whole; a cookie whose call found its ciphertext invalid or sealed
    /// under another key, returned no plaintext, or returned bytes that are
    /// not UTF-8 is dropped.
    pub fn from_decrypted(key_id: KeyId, outcomes: Vec<(String, DecryptOutcome)>) -> (r: Result<
        PrivateCookieJar,
        JarError,
    >)
        ensures
            match r {
                Ok(j) => {
                    &&& forall|i: int| 0 <= i < outcomes@.len() ==> !is_hard(#[trigger] outcomes@[i].1)
                    &&& j.wf()
                    &&& j@.key_id == key_id@
                    &&& j@.initial == opened(outcome_views(outcomes@))
                    &&& j@.current == j@.initial
                },
                Err(JarError::Decrypt(i)) => {
                    &&& i < outcomes@.len()
                    &&& is_hard(outcomes@[i as int].1)
                    &&& forall|k: int| 0 <= k < i ==> !is_hard(#[trigger] outcomes@[k].1)
                },
                Err(JarError::Encrypt(_)) => false,
            },
    {
        let mut i: usize = 0;
        while i < outcomes.len()
            invariant
                i <= outcomes@.len(),
                forall|k: int| 0 <= k < i ==> !is_hard(#[trigger] outcomes@[k].1),
            decreases outcomes@.len() - i,
        {
            if Self::is_hard_failure(&outcomes[i].1) {
                return Err(JarError::Decrypt(i));
            }
            i = i + 1;
        }
        let ghost ov = outcome_views(outcomes@);
        let mut jar: Vec<Cookie> = Vec::new();
        let mut k: usize = 0;
        while k < outcomes.len()
            invariant
                k <= outcomes@.len(),
                ov == outcome_views(outcomes@),
                unique_names(views(jar@)),
                views(jar@) == opened(ov.subrange(0, k as int)),
            decreases outcomes@.len() - k,
        {
            assert(ov.subrange(0, k + 1).drop_last() =~= ov.subrange(0, k as int));
            match &outcomes[k].1 {
                DecryptOutcome::Plaintext(p) => {
                    let bytes = p.clone();
                    assert(bytes@ =~= p@);
                    match utf8_decode(bytes) {
                        Some(text) => {
                            let c = Cookie::new(outcomes[k].0.clone(), text);
                            upsert_vec(&mut jar, c);
                        },
                        None => {},
                    }
                },
                _ => {},
            }
            k = k + 1;
        }
        assert(ov.subrange(0, ov.len() as int) =~= ov);
        let mut current: Vec<Cookie> = Vec::new();
        let mut m: usize = 0;
        while m < jar.len()
            invariant
                m <= jar@.len(),
                views(current@) == views(jar@).subrange(0, m as int),
            decreases jar@.len() - m,
        {
            let c = jar[m].duplicate();
            let ghost before = current@;
            current.push(c);
            assert(current@ == before.push(c));
            assert(views(current@) =~= views(before).push(c@));
            assert(views(current@) =~= views(jar@).subrange(0, m + 1));
            m = m + 1;
        }
        assert(views(current@) =~= views(jar@));
        Ok(PrivateCookieJar { initial: jar, current, key_id })
    }

    /// The key that seals this jar's cookies.
    pub fn key_id(&self) -> (r: &KeyId)
        ensures
            r@ == self@.key_id,
    {
        &self.key_id
    }

    /// The cookie named `name`, if the jar holds one.
    pub fn get(&self, name: &String) -> (r: Option<&Cookie>)
        requires
            self.wf(),
        ensures
            match r {
                Some(c) => cookie_map(self@.current).contains_key(name@) && c@ == cookie_map(
                    self@.current,
                )[name@],
                None => !cookie_map(self@.current).contains_key(name@),
            },
    {
        match position(&self.current, name) {
            Some(i) => {
                proof {
                    lemma_index_of(views(self.current@), i as int);
                }
                Some(&self.current[i])
            },
            None => None,
        }
    }

    /// The jar with `cookie` in place of any cookie of the same name. No
    /// remote call is made.
    pub fn add(self, cookie: Cookie) -> (r: PrivateCookieJar)
        requires
            self.wf(),
        ensures
            r.wf(),
            r@.key_id == self@.key_id,
            r@.initial == self@.initial,
            r@.current == upsert(self@.current, cookie@),
            cookie_map(r@.current) == cookie_map(self@.current).insert(cookie@.name, cookie@),
    {
        proof {
            lemma_upsert(self@.current, cookie@);
        }
        let mut j = self;
        upsert_vec(&mut j.current, cookie);
        j
    }

    /// The jar without the cookie named as `cookie` is. No remote call is
    /// made.
    pub fn remove(self, cookie: Cookie) -> (r: PrivateCookieJar)
        requires
            self.wf(),
        ensures
            r.wf(),
            r@.key_id == self@.key_id,
            r@.initial == self@.initial,
            r@.current == without(self@.current, cookie@.name),
            cookie_map(r@.current) == cookie_map(self@.current).remove(cookie@.name),
    {
        proof {
            lemma_without(self@.current, cookie@.name);
        }
        let mut j = self;
        remove_vec(&mut j.current, &cookie.name);
        j
    }

    /// The cookies the jar holds now.
    pub fn iter(&self) -> (r: &Vec<Cookie>)
        ensures
            views(r@) == self@.current,
    {
        &self.current
    }

    fn is_changed(&self, c: &Cookie) -> (r: bool)
        requires
            self.wf(),
        ensures
            r == changed(self@.initial, c@),
    {
        match position(&self.initial, &c.name) {
            Some(i) => {
                proof {
                    lemma_index_of(views(self.initial@), i as int);
                }
                !(self.initial[i].value == c.value)
            },
            None => true,
        }
    }

    /// The cookies added or given another value since the jar was built, in
    /// the order the jar holds them. Only these are sealed again.
    pub fn delta(&self) -> (r: Vec<Cookie>)
        requires
            self.wf(),
        ensures
            views(r@) == delta(self@),
    {
        let mut out: Vec<Cookie> = Vec::new();
        let mut i: usize = 0;
        while i < self.current.len()
            invariant
                self.wf(),
                i <= self.current@.len(),
                views(out@) == delta_of(self@.initial, views(self.current@).subrange(0, i as int)),
            decreases self.current@.len() - i,
        {
            let ghost cur = views(self.current@);
            assert(cur.subrange(0, i + 1).drop_last() =~= cur.subrange(0, i as int));
            assert(cur.subrange(0, i + 1).last() == self.current@[i as int]@);
            if self.is_changed(&self.current[i]) {
                let c = self.current[i].duplicate();
                let ghost before = out@;
                out.push(c);
                assert(out@ == before.push(c));
                assert(views(out@) =~= views(before).push(c@));
            }
            i = i + 1;
        }
        assert(views(self.current@).subrange(0, self.current@.len() as int) =~= views(self.current@));
        out
    }

    /// The cookies the jar was built with whose name it no longer holds, in
    /// the order it was built with them.
    pub fn removed(&self) -> (r: Vec<Cookie>)
        requires
            self.wf(),
        ensures
            views(r@) == removed(self@),
    {
        let mut out: Vec<Cookie> = Vec::new();
        let mut i: usize = 0;
        while i < self.initial.len()
            invariant
                self.wf(),
                i <= self.initial@.len(),
                views(out@) == removed_of(self@.current, views(self.initial@).subrange(0, i as int)),
            decreases self.initial@.len() - i,
        {
            let ghost org = views(self.initial@);
            assert(org.subrange(0, i + 1).drop_last() =~= org.subrange(0, i as int));
            assert(org.subrange(0, i + 1).last() == self.initial@[i as int]@);
            if position(&self.current, &self.initial[i].name).is_none() {
                let c = self.initial[i].duplicate();
                let ghost before = out@;
                out.push(c);
                assert(out@ == before.push(c));
                assert(views(out@) =~= views(before).push(c@));
            } else {
                proof {
                    let w = choose|w: int| 0 <= w < self.current@.len() && self.current@[w].name@ == self.initial@[i as int].name@;
                    assert(views(self.current@)[w].name == org[i as int].name);
                }
            }
            i = i + 1;
        }
        assert(views(self.initial@).subrange(0, self.initial@.len() as int) =~= views(self.initial@));
        out
    }

    /// The `Set-Cookie` values that finish the jar, from the outcome of one
    /// `Encrypt` call per cookie of [`Self::delta`], in the same order: each
    /// new or changed cookie with its ciphertext in base64, `HttpOnly` and
    /// `Secure`, then one removal per removed cookie. Removals are never
    /// sealed. Any failed call, or one that returned no ciphertext, fails the
    /// whole and nothing is emitted.
    pub fn into_headers(&self, outcomes: &Vec<EncryptOutcome>) -> (r: Result<Vec<String>, JarError>)
        requires
            self.wf(),
            outcomes@.len() == delta(self@).len(),
        ensures
            match r {
                Ok(h) => {
                    &&& forall|i: int| 0 <= i < outcomes@.len() ==> (#[trigger] ciphertext_of(outcomes@[i])).is_some()
                    &&& texts(h@) == headers_of(delta(self@), outcomes@, removed(self@))
                    &&& forall|i: int| 0 <= i < outcomes@.len() ==>
                        b64url_decoded(b64url_encoded(#[trigger] ciphertext_of(outcomes@[i])->0)) == ciphertext_of(outcomes@[i])
                },
                Err(JarError::Encrypt(i)) => {
                    &&& i < outcomes@.len()
                    &&& ciphertext_of(outcomes@[i as int]).is_none()
                    &&& forall|k: int| 0 <= k < i ==> (#[trigger] ciphertext_of(outcomes@[k])).is_some()
                },
                Err(JarError::Decrypt(_)) => false,
            },
    {
        let d = self.delta();
        let mut out: Vec<String> = Vec::new();
        let mut i: usize = 0;
        while i < d.len()
            invariant
                i <= d@.len(),
                views(d@) == delta(self@),
                outcomes@.len() == d@.len(),
                forall|k: int| 0 <= k < i ==> (#[trigger] ciphertext_of(outcomes@[k])).is_some(),
                forall|k: int| 0 <= k < i ==>
                    b64url_decoded(b64url_encoded(#[trigger] ciphertext_of(outcomes@[k])->0)) == ciphertext_of(outcomes@[k]),
                out@.len() == i,
                forall|k: int| 0 <= k < i ==> (#[trigger] out@[k])@ == set_cookie_text(
                    sealed_view(d@[k]@, b64url_encoded(ciphertext_of(outcomes@[k])->0)),
                ),
            decreases d@.len() - i,
        {
            match &outcomes[i] {
                EncryptOutcome::Ciphertext(c) => {
                    let value = b64url_encode(c);
                    let sealed = d[i].sealed(value);
                    out.push(sealed.to_header());
                },
                _ => {
                    return Err(JarError::Encrypt(i));
                },
            }
            i = i + 1;
        }
        let gone = self.removed();
        let ghost n = out@.len();
        let mut k: usize = 0;
        while k < gone.len()
            invariant
                k <= gone@.len(),
                views(gone@) == removed(self@),
                out@.len() == n + k,
                n == d@.len(),
                forall|m: int| 0 <= m < n ==> (#[trigger] out@[m])@ == set_cookie_text(
                    sealed_view(d@[m]@, b64url_encoded(ciphertext_of(outcomes@[m])->0)),
                ),
                forall|m: int| 0 <= m < k ==> (#[trigger] out@[n + m])@ == set_cookie_text(
                    removal_view(gone@[m].name@),
                ),
            decreases gone@.len() - k,
        {
            let tomb = gone[k].removal();
            out.push(tomb.to_header());
            k = k + 1;
        }
        let ghost want = headers_of(delta(self@), outcomes@, removed(self@));
        assert forall|m: int| 0 <= m < out@.len() implies texts(out@)[m] == want[m] by {
            if m >= n {
                assert(out@[n + (m - n)] == out@[m]);
            }
        }
        assert(texts(out@) =~= want);
        Ok(out)
    }

    /// Finishes the jar: the outcome of [`Self::into_headers`], to hand to
    /// the response.
    pub fn finish(self, outcomes: &Vec<EncryptOutcome>) -> (r: Finish<Result<Vec<String>, JarError>>)
        requires
            self.wf(),
            outcomes@.len() == delta(self@).len(),
        ensures
            match r.0 {
                Ok(h) => {
                    &&& forall|i: int| 0 <= i < outcomes@.len() ==> (#[trigger] ciphertext_of(outcomes@[i])).is_some()
                    &&& texts(h@) == headers_of(delta(self@), outcomes@, removed(self@))
                },
                Err(JarError::Encrypt(i)) => {
                    &&& i < outcomes@.len()
                    &&& ciphertext_of(outcomes@[i as int]).is_none()
                    &&& forall|k: int| 0 <= k < i ==> (#[trigger] ciphertext_of(outcomes@[k])).is_some()
                },
                Err(JarError::Decrypt(_)) => false,
            },
    {
        Finish(self.into_headers(outcomes))
    }

    /// The plaintext to seal for each cookie of [`Self::delta`], in the same
    /// order: the UTF-8 bytes of its value.
    pub fn plaintexts(&self) -> (r: Vec<Vec<u8>>)
        requires
            self.wf(),
        ensures
            r@.len() == delta(self@).len(),
            forall|i: int| 0 <= i < r@.len() ==> utf8_decoded(#[trigger] r@[i]@) == Some(delta(self@)[i].value),
    {
        let d = self.delta();
        let mut out: Vec<Vec<u8>> = Vec::new();
        let mut i: usize = 0;
        while i < d.len()
            invariant
                i <= d@.len(),
                views(d@) == delta(self@),
                out@.len() == i,
                forall|k: int| 0 <= k < i ==> utf8_decoded(#[trigger] out@[k]@) == Some(d@[k].value@),
            decreases d@.len() - i,
        {
            out.push(utf8_encode(d[i].value.clone()));
            i = i + 1;
        }
        out
    }
}

/// The piece `x` carries a cookie named `n` whose value decodes to `c`.
pub open spec fn carries(x: Option<(Seq<char>, Seq<char>)>, n: Seq<char>, c: Seq<u8>) -> bool {
    match x {
        Some((m, v)) => m == n && b64url_decoded(v) == Some(c),
        None => false,
    }
}

/// Entry `i` of `o` opened to a cookie named `n` with the text `t`.
pub open spec fn opens_to(o: Seq<(Seq<char>, Option<Seq<u8>>)>, i: int, n: Seq<char>, t: Seq<char>) -> bool {
    &&& o[i].0 == n
    &&& o[i].1 matches Some(p)
    &&& utf8_decoded(p) == Some(t)
}

/// Every sealed cookie taken from a `Cookie` header comes from a piece whose
/// value decodes as base64: a piece with a corrupted payload yields nothing.
pub proof fn lemma_corrupt_payload_dropped(p: Seq<Option<(Seq<char>, Seq<char>)>>)
    ensures
        forall|i: int| 0 <= i < decodable(p).len() ==> exists|j: int|
            0 <= j < p.len() && carries(#[trigger] p[j], (#[trigger] decodable(p)[i]).0, decodable(p)[i].1),
    decreases p.len(),
{
    if p.len() > 0 {
        let q = p.drop_last();
        lemma_corrupt_payload_dropped(q);
        assert forall|i: int| 0 <= i < decodable(p).len() implies exists|j: int|
            0 <= j < p.len() && carries(#[trigger] p[j], (#[trigger] decodable(p)[i]).0, decodable(p)[i].1) by {
            if i < decodable(q).len() {
                assert(decodable(q)[i] == decodable(p)[i]);
                let j = choose|j: int| 0 <= j < q.len() && carries(#[trigger] q[j], decodable(q)[i].0, decodable(q)[i].1);
                assert(p[j] == q[j]);
            } else {
                assert(carries(p[p.len() - 1], decodable(p)[i].0, decodable(p)[i].1));
            }
        }
    }
}

/// A jar built from decryption results holds a name exactly when some
/// result of that name opened to valid text, and then holds the text of the
/// last such result. A cookie whose call was rejected, or whose plaintext is
/// not text, adds nothing.
pub proof fn lemma_opened_names(o: Seq<(Seq<char>, Option<Seq<u8>>)>, n: Seq<char>)
    ensures
        unique_names(opened(o)),
        named(opened(o), n) <==> exists|i: int| 0 <= i < o.len() && #[trigger] opens_to(o, i, n, cookie_map(opened(o))[n].value),
        named(opened(o), n) <==> exists|i: int, t: Seq<char>| 0 <= i < o.len() && #[trigger] opens_to(o, i, n, t),
    decreases o.len(),
{
    if o.len() == 0 {
        assert(opened(o) =~= seq![]);
    } else {
        let q = o.drop_last();
        lemma_opened_names(q, n);
        let r = opened(q);
        let last = o.last();
        assert forall|i: int| 0 <= i < q.len() implies q[i] == #[trigger] o[i] by {}
        match last.1 {
            Some(p) => match utf8_decoded(p) {
                Some(t) => {
                    let c = bare(last.0, t);
                    lemma_upsert(r, c);
                    assert(cookie_map(opened(o)) == cookie_map(r).insert(c.name, c));
                    if n == last.0 {
                        assert(cookie_map(opened(o)).contains_key(n));
                        assert(opens_to(o, o.len() - 1, n, t));
                        assert(cookie_map(opened(o))[n].value == t);
                    } else {
                        assert(cookie_map(opened(o)).contains_key(n) == named(opened(o), n));
                        assert(cookie_map(r).contains_key(n) == named(r, n));
                        assert(named(opened(o), n) == named(r, n));
                        if named(r, n) {
                            assert(cookie_map(opened(o))[n] == cookie_map(r)[n]);
                            let i = choose|i: int| 0 <= i < q.len() && #[trigger] opens_to(q, i, n, cookie_map(r)[n].value);
                            assert(opens_to(o, i, n, cookie_map(opened(o))[n].value));
                        }
                        assert forall|i: int, t2: Seq<char>| 0 <= i < o.len() && #[trigger] opens_to(o, i, n, t2) implies named(r, n) by {
                            assert(i < q.len());
                            assert(opens_to(q, i, n, t2));
                        }
                    }
                },
                None => {
                    assert forall|i: int, t2: Seq<char>| 0 <= i < o.len() && #[trigger] opens_to(o, i, n, t2) implies named(r, n) by {
                        assert(i < q.len());
                        assert(opens_to(q, i, n, t2));
                    }
                    if named(r, n) {
                        let i = choose|i: int| 0 <= i < q.len() && #[trigger] opens_to(q, i, n, cookie_map(r)[n].value);
                        assert(opens_to(o, i, n, cookie_map(r)[n].value));
                    }
                },
            },
            None => {
                assert forall|i: int, t2: Seq<char>| 0 <= i < o.len() && #[trigger] opens_to(o, i, n, t2) implies named(r, n) by {
                    assert(i < q.len());
                    assert(opens_to(q, i, n, t2));
                }
                if named(r, n) {
                    let i = choose|i: int| 0 <= i < q.len() && #[trigger] opens_to(q, i, n, cookie_map(r)[n].value);
                    assert(opens_to(o, i, n, cookie_map(r)[n].value));
                }
            },
        }
    }
}

/// A cookie whose ciphertext the service rejects as invalid, as it does for
/// one sealed under a retired key, does not abort building the jar and
/// brings no plaintext to it.
pub proof fn lemma_rejected_cookie_dropped(o: Seq<(String, DecryptOutcome)>, i: int)
    requires
        0 <= i < o.len(),
        o[i].1 is InvalidCiphertext,
    ensures
        !is_hard(o[i].1),
        outcome_views(o)[i].1 is None,
        forall|t: Seq<char>| !opens_to(outcome_views(o), i, o[i].0@, t),
{
}

proof fn lemma_delta_contains(initial: Seq<CookieView>, s: Seq<CookieView>, k: int)
    requires
        0 <= k < s.len(),
        changed(initial, s[k]),
    ensures
        exists|i: int| 0 <= i < delta_of(initial, s).len() && #[trigger] delta_of(initial, s)[i] == s[k],
    decreases s.len(),
{
    let q = s.drop_last();
    if k == s.len() - 1 {
        let d = delta_of(initial, s);
        assert(d[d.len() - 1] == s[k]);
    } else {
        assert(q[k] == s[k]);
        lemma_delta_contains(initial, q, k);
        let i = choose|i: int| 0 <= i < delta_of(initial, q).len() && #[trigger] delta_of(initial, q)[i] == q[k];
        assert(delta_of(initial, s)[i] == s[k]);
    }
}

/// Round trip of one cookie value. Adding `c` to a jar puts it among the
/// cookies that `finish` seals, where the value sent is the base64 of the
/// ciphertext. When the client sends that name and value back, the value
/// decodes to the same ciphertext; when the key opens it to the bytes that
/// were sealed, the jar built on the later request holds `c`'s value under
/// `c`'s name. A value equal to the one the cookie arrived with is not sent
/// again, so `c` is taken to be new or changed.
pub proof fn lemma_round_trip(
    j: JarView,
    c: CookieView,
    ciphertext: Seq<u8>,
    plaintext: Seq<u8>,
    sent: Seq<char>,
)
    requires
        unique_names(j.initial),
        unique_names(j.current),
        changed(j.initial, c),
        sent == b64url_encoded(ciphertext),
        b64url_decoded(sent) == Some(ciphertext),
        utf8_decoded(plaintext) == Some(c.value),
    ensures
        exists|i: int|
            0 <= i < delta(JarView { current: upsert(j.current, c), ..j }).len()
                && #[trigger] delta(JarView { current: upsert(j.current, c), ..j })[i] == c,
        sealed_view(c, sent).name == c.name,
        sealed_view(c, sent).value == sent,
        decodable(seq![Some((c.name, sent))]) == seq![(c.name, ciphertext)],
        cookie_map(opened(seq![(c.name, Some(plaintext))])).contains_key(c.name),
        cookie_map(opened(seq![(c.name, Some(plaintext))]))[c.name].value == c.value,
{
    let t = upsert(j.current, c);
    let k = if named(j.current, c.name) { index_of(j.current, c.name) } else { j.current.len() as int };
    assert(t[k] == c);
    lemma_delta_contains(j.initial, t, k);
    let j2 = JarView { current: t, ..j };
    assert(delta(j2) == delta_of(j.initial, t));
    let i = choose|i: int| 0 <= i < delta_of(j.initial, t).len() && #[trigger] delta_of(j.initial, t)[i] == t[k];
    assert(delta(j2)[i] == c);
    let p = seq![Some((c.name, sent))];
    assert(p.drop_last() =~= seq![]);
    assert(p.drop_last().len() == 0);
    assert(decodable(p.drop_last()) == Seq::<(Seq<char>, Seq<u8>)>::empty());
    assert(p.last() == Some((c.name, sent)));
    assert(decodable(p) =~= seq![(c.name, ciphertext)]);
    let o = seq![(c.name, Some(plaintext))];
    assert(o.drop_last() =~= seq![]);
    assert(o.drop_last().len() == 0);
    let e: Seq<CookieView> = seq![];
    assert(opened(o.drop_last()) == e);
    assert(o.last() == (c.name, Some(plaintext)));
    assert(opened(o) == upsert(e, bare(c.name, c.value)));
    assert(!named(e, c.name));
    let b = bare(c.name, c.value);
    assert(b.name == c.name);
    assert(upsert(e, b) == e.push(b));
    assert(opened(o) =~= seq![b]);
    assert(opened(o)[0] == b);
    lemma_index_of(opened(o), 0);
}

/// The outcome of [`PrivateCookieJar::finish`], handed to the response.
pub struct Finish<T>(pub T);

} // verus!

//! A cookie as plain values, with its `Set-Cookie` form and the parsing of
//! a `Cookie` request header.

use vstd::prelude::*;

verus! {

/// A cookie: its name, its value and the attributes that a `Set-Cookie`
/// header carries. `max_age` counts seconds; `expires` is a Unix time in
/// seconds.
pub struct Cookie {
    pub name: String,
    pub value: String,
    pub http_only: Option<bool>,
    pub secure: Option<bool>,
    pub path: Option<String>,
    pub domain: Option<String>,
    pub max_age: Option<i64>,
    pub expires: Option<i64>,
}

/// The mathematical value of a [`Cookie`].
pub struct CookieView {
    pub name: Seq<char>,
    pub value: Seq<char>,
    pub http_only: Option<bool>,
    pub secure: Option<bool>,
    pub path: Option<Seq<char>>,
    pub domain: Option<Seq<char>>,
    pub max_age: Option<i64>,
    pub expires: Option<i64>,
}

pub open spec fn opt_text(o: Option<String>) -> Option<Seq<char>> {
    match o {
        Some(s) => Some(s@),
        None => None,
    }
}

impl View for Cookie {
    type V = CookieView;

    open spec fn view(&self) -> CookieView {
        CookieView {
            name: self.name@,
            value: self.value@,
            http_only: self.http_only,
            secure: self.secure,
            path: opt_text(self.path),
            domain: opt_text(self.domain),
            max_age: self.max_age,
            expires: self.expires,
        }
    }
}

/// A bare cookie: a name and a value and no attribute.
pub open spec fn bare(name: Seq<char>, value: Seq<char>) -> CookieView {
    CookieView {
        name,
        value,
        http_only: None,
        secure: None,
        path: None,
        domain: None,
        max_age: None,
        expires: None,
    }
}

/// The cookie `c` as it goes out: its value replaced by `value`, marked
/// `HttpOnly` and `Secure`, its other attributes kept.
pub open spec fn sealed_view(c: CookieView, value: Seq<char>) -> CookieView {
    CookieView { value, http_only: Some(true), secure: Some(true), ..c }
}

/// The removal cookie for the name `name`: an empty value, a zero `Max-Age`
/// and an expiry at the start of Unix time, so that a client drops it.
pub open spec fn removal_view(name: Seq<char>) -> CookieView {
    CookieView {
        name,
        value: seq![],
        http_only: None,
        secure: None,
        path: None,
        domain: None,
        max_age: Some(0),
        expires: Some(0),
    }
}

/// What the `Display` impl of `cookie::Cookie` writes for a cookie whose
/// fields are those of `c`: the value of a `Set-Cookie` header.
pub uninterp spec fn set_cookie_text(c: CookieView) -> Seq<char>;

/// What `cookie::Cookie::split_parse` yields for a `Cookie` header value:
/// one entry per `;`-separated piece, the name and value of a piece that
/// parses, or `None` for one that does not.
pub uninterp spec fn cookie_pieces(header: Seq<char>) -> Seq<Option<(Seq<char>, Seq<char>)>>;

pub open spec fn pieces_view(v: Seq<Option<(String, String)>>) -> Seq<Option<(Seq<char>, Seq<char>)>> {
    v.map_values(|p: Option<(String, String)>| match p {
        Some((n, x)) => Some((n@, x@)),
        None => None,
    })
}

fn copy_text(o: &Option<String>) -> (r: Option<String>)
    ensures
        opt_text(r) == opt_text(*o),
{
    match o {
        Some(s) => Some(s.clone()),
        None => None,
    }
}

impl Cookie {
    /// A cookie with the given name and value and no attribute.
    pub fn new(name: String, value: String) -> (r: Cookie)
        ensures
            r@ == bare(name@, value@),
    {
        Cookie {
            name,
            value,
            http_only: None,
            secure: None,
            path: None,
            domain: None,
            max_age: None,
            expires: None,
        }
    }

    pub fn name(&self) -> (r: &str)
        ensures
            r@ == self.name@,
    {
        self.name.as_str()
    }

    pub fn value(&self) -> (r: &str)
        ensures
            r@ == self.value@,
    {
        self.value.as_str()
    }

    /// The same cookie, as a new value.
    pub fn duplicate(&self) -> (r: Cookie)
        ensures
            r@ == self@,
    {
        Cookie {
            name: self.name.clone(),
            value: self.value.clone(),
            http_only: self.http_only,
            secure: self.secure,
            path: copy_text(&self.path),
            domain: copy_text(&self.domain),
            max_age: self.max_age,
            expires: self.expires,
        }
    }

    /// This cookie carrying `value` instead, `HttpOnly` and `Secure`.
    pub fn sealed(&self, value: String) -> (r: Cookie)
        ensures
            r@ == sealed_view(self@, value@),
    {
        let mut c = self.duplicate();
        c.value = value;
        c.http_only = Some(true);
        c.secure = Some(true);
        c
    }

    /// The removal cookie for this cookie's name.
    pub fn removal(&self) -> (r: Cookie)
        ensures
            r@ == removal_view(self.name@),
    {
        Cookie {
            name: self.name.clone(),
            value: String::new(),
            http_only: None,
            secure: None,
            path: None,
            domain: None,
            max_age: Some(0),
            expires: Some(0),
        }
    }

    /// The value of a `Set-Cookie` header that sets this cookie.
    pub fn to_header(&self) -> (r: String)
        ensures
            r@ == set_cookie_text(self@),
    {
        render_set_cookie(self)
    }
}

/// Relies on the `Display` impl of `cookie::Cookie`: the `Set-Cookie` text of
/// a cookie built from the fields of `c`.
#[verifier::external_body]
fn render_set_cookie(c: &Cookie) -> (r: String)
    ensures
        r@ == set_cookie_text(c@),
{
    let mut k = cookie::Cookie::new(c.name.clone(), c.value.clone());
    k.set_http_only(c.http_only);
    k.set_secure(c.secure);
    if let Some(p) = &c.path { k.set_path(p.clone()); }
    if let Some(d) = &c.domain { k.set_domain(d.clone()); }
    k.set_max_age(c.max_age.map(cookie::time::Duration::seconds));
    k.set_expires(c.expires.and_then(|t| cookie::time::OffsetDateTime::from_unix_timestamp(t).ok()));
    k.to_string()
}

/// Relies on `cookie::Cookie::split_parse`: the name and value of each piece
/// of the `Cookie` header value `header`, or `None` for a piece that fails
/// to parse.
#[verifier::external_body]
pub(crate) fn split_cookie_header(header: &str) -> (r: Vec<Option<(String, String)>>)
    ensures
        pieces_view(r@) == cookie_pieces(header@),
{
    cookie::Cookie::split_parse(header)
        .map(|p| p.ok().map(|c| (c.name().to_string(), c.value().to_string())))
        .collect()
}

} // verus!

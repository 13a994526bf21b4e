//! Authorization header normalisation and the treatment of secrets.

use vstd::prelude::*;

use crate::text::{
    ascii_lowercase, ascii_text, chars_of, contains, contains_seq, extend_chars, extend_str,
    lemma_trim_ends, lemma_trim_fixed, lower_form, lowercase_chars, match_at, matches_at,
    slice_chars, starts_with, string_from, to_lowercase, trim, trimmed,
};

verus! {

/// The value an auth field gives for the `Authorization` header: `None` for
/// a blank field, the trimmed text where it already names the `Basic` or
/// `Bearer` scheme (in any letter case), and a bearer token otherwise.
pub open spec fn auth_header_value(auth: Seq<char>) -> Option<Seq<char>> {
    let t = trim(auth);
    if t.len() == 0 {
        None
    } else if starts_with(lower_form(t), "basic "@) || starts_with(lower_form(t), "bearer "@) {
        Some(t)
    } else {
        Some("Bearer "@ + t)
    }
}

pub fn normalize_auth_header(auth: &str) -> (r: Option<String>)
    ensures
        r matches Some(v) ==> auth_header_value(auth@) == Some(v@),
        r is None <==> auth_header_value(auth@) is None,
{
    let c = chars_of(auth);
    let t = trimmed(&c);
    if t.len() == 0 {
        return None;
    }
    let low = lowercase_chars(&t);
    if match_at(&low, &chars_of("basic "), 0) || match_at(&low, &chars_of("bearer "), 0) {
        Some(string_from(&t))
    } else {
        let mut v = chars_of("Bearer ");
        extend_chars(&mut v, &t);
        Some(string_from(&v))
    }
}

/// A name that looks like it holds a secret: its lowercase form contains one
/// of the markers `token`, `access_token`, `refresh_token`, `password`,
/// `secret`, `api_key` or `authorization`.
pub open spec fn secret_name(name: Seq<char>) -> bool {
    let low = lower_form(name);
    ||| contains(low, "token"@)
    ||| contains(low, "access_token"@)
    ||| contains(low, "refresh_token"@)
    ||| contains(low, "password"@)
    ||| contains(low, "secret"@)
    ||| contains(low, "api_key"@)
    ||| contains(low, "authorization"@)
}

pub fn is_secret_name(name: &str) -> (b: bool)
    ensures
        b == secret_name(name@),
{
    let low = chars_of(to_lowercase(name).as_str());
    contains_seq(&low, &chars_of("token")) || contains_seq(&low, &chars_of("access_token"))
        || contains_seq(&low, &chars_of("refresh_token")) || contains_seq(
        &low,
        &chars_of("password"),
    ) || contains_seq(&low, &chars_of("secret")) || contains_seq(&low, &chars_of("api_key"))
        || contains_seq(&low, &chars_of("authorization"))
}

/// How a secret is shown: nothing for an empty value, eight stars for a
/// value of at most eight characters, and otherwise its first three and last
/// three characters around `...`.
pub open spec fn masked(v: Seq<char>) -> Seq<char> {
    if v.len() == 0 {
        Seq::empty()
    } else if v.len() <= 8 {
        "********"@
    } else {
        v.take(3) + "..."@ + v.skip(v.len() - 3)
    }
}

pub fn mask_secret(value: &str) -> (r: String)
    ensures
        r@ == masked(value@),
{
    let c = chars_of(value);
    if c.len() == 0 {
        String::new()
    } else if c.len() <= 8 {
        "********".to_owned()
    } else {
        let mut v = slice_chars(&c, 0, 3);
        extend_str(&mut v, "...");
        let tail = slice_chars(&c, c.len() - 3, c.len());
        extend_chars(&mut v, &tail);
        assert(c@.subrange(0, 3) =~= c@.take(3));
        assert(c@.subrange(c.len() - 3, c.len() as int) =~= c@.skip(c.len() - 3));
        string_from(&v)
    }
}


proof fn lemma_ascii_lowercase_concat(a: Seq<char>, b: Seq<char>)
    ensures
        ascii_lowercase(a + b) == ascii_lowercase(a) + ascii_lowercase(b),
        ascii_text(a) && ascii_text(b) ==> ascii_text(a + b),
{
    assert(ascii_lowercase(a + b) =~= ascii_lowercase(a) + ascii_lowercase(b));
    if ascii_text(a) && ascii_text(b) {
        assert forall|i: int| 0 <= i < (a + b).len() implies (#[trigger] (a + b)[i] as u32) < 128 by {
            if i < a.len() {
                assert((a + b)[i] == a[i]);
            } else {
                assert((a + b)[i] == b[i - a.len()]);
            }
        }
    }
}

proof fn lemma_contains_within(s: Seq<char>, p: Seq<char>, q: Seq<char>, m: Seq<char>)
    requires
        contains(s, m),
    ensures
        contains(p + s + q, m),
{
    let i = choose|i: int| matches_at(s, m, i);
    let w = p + s + q;
    assert(w.subrange(p.len() + i, p.len() + i + m.len()) =~= s.subrange(i, i + m.len()));
    assert(matches_at(w, m, p.len() + i));
}

/// A name that looks like a secret still does inside a longer text, where
/// all of it is ASCII.
pub proof fn lemma_secret_name_in_longer_text(p: Seq<char>, s: Seq<char>, q: Seq<char>)
    requires
        ascii_text(p),
        ascii_text(s),
        ascii_text(q),
        secret_name(s),
    ensures
        secret_name(p + s + q),
{
    lemma_ascii_lowercase_concat(p, s);
    lemma_ascii_lowercase_concat(p + s, q);
    let ls = ascii_lowercase(s);
    let lp = ascii_lowercase(p);
    let lq = ascii_lowercase(q);
    assert(lower_form(p + s + q) == lp + ls + lq);
    assert(lower_form(s) == ls);
    if contains(ls, "access_token"@) {
        lemma_contains_within(ls, lp, lq, "access_token"@);
    }
    if contains(ls, "refresh_token"@) {
        lemma_contains_within(ls, lp, lq, "refresh_token"@);
    }
    if contains(ls, "password"@) {
        lemma_contains_within(ls, lp, lq, "password"@);
    }
    if contains(ls, "secret"@) {
        lemma_contains_within(ls, lp, lq, "secret"@);
    }
    if contains(ls, "api_key"@) {
        lemma_contains_within(ls, lp, lq, "api_key"@);
    }
    if contains(ls, "authorization"@) {
        lemma_contains_within(ls, lp, lq, "authorization"@);
    }
    if contains(ls, "token"@) {
        lemma_contains_within(ls, lp, lq, "token"@);
    }
}

/// Normalising an Authorization value that was already normalised gives it
/// back, where the field kept its scheme as written or is ASCII text.
pub proof fn lemma_auth_value_idempotent(auth: Seq<char>, v: Seq<char>)
    requires
        auth_header_value(auth) == Some(v),
        v == trim(auth) || ascii_text(trim(auth)),
    ensures
        auth_header_value(v) == Some(v),
{
    let t = trim(auth);
    lemma_trim_ends(auth);
    reveal_strlit("Bearer ");
    reveal_strlit("bearer ");
    reveal_strlit("basic ");
    if v == t {
        lemma_trim_fixed(v);
    } else {
        let b = "Bearer "@;
        assert(v == b + t);
        assert(v[0] == 'B');
        assert(v.last() == t.last());
        lemma_trim_fixed(v);
        assert(ascii_text(b));
        lemma_ascii_lowercase_concat(b, t);
        assert(ascii_lowercase(b) =~= "bearer "@);
        assert(lower_form(v) == "bearer "@ + ascii_lowercase(t));
        assert((lower_form(v)).subrange(0, 7) =~= "bearer "@);
    }
}

} // verus!

//! Request model, URL normalisation, header parsing and the preparation of a
//! request before it is sent.

use vstd::prelude::*;

use reqwest::header::{HeaderMap, HeaderName, HeaderValue};

use crate::auth::{auth_header_value, normalize_auth_header};
use crate::response::{format_json_body, formatted_body, ResponseState};
use crate::text::{
    ascii_lower, ascii_lowercase, is_whitespace, lemma_one_line, lemma_split_once_first,
    lemma_trim_after_trim_end, lemma_trim_end_concat, trim_end, trim_start,
    char_rows, chars_of, contains, contains_seq, decimal, decimal_string, extend_chars,
    extend_str, find_char, lemma_find_char_from, lemma_trim_ends, lemma_trim_fixed, lines,
    match_at, slice_chars, split_lines, split_once, starts_with, string_from, trim, trimmed,
};

verus! {

#[derive(Clone, Copy, Debug, PartialEq, Eq, Structural)]
pub enum Method {
    Get,
    Post,
    Put,
    Patch,
    Delete,
}

/// The name a method is written with.
pub open spec fn method_name(m: Method) -> Seq<char> {
    match m {
        Method::Get => "GET"@,
        Method::Post => "POST"@,
        Method::Put => "PUT"@,
        Method::Patch => "PATCH"@,
        Method::Delete => "DELETE"@,
    }
}

impl Method {
    pub fn to_string(&self) -> (r: String)
        ensures
            r@ == method_name(*self),
    {
        match self {
            Method::Get => "GET".to_owned(),
            Method::Post => "POST".to_owned(),
            Method::Put => "PUT".to_owned(),
            Method::Patch => "PATCH".to_owned(),
            Method::Delete => "DELETE".to_owned(),
        }
    }
}

#[derive(Clone, Debug, PartialEq, Eq)]
pub struct RequestInput {
    pub method: Method,
    pub url: String,
    pub headers: String,
    pub body: String,
    pub auth: String,
}

impl RequestInput {
    pub fn new(method: Method, url: String, headers: String, body: String, auth: String) -> (r:
        Self)
        ensures
            r.method == method,
            r.url == url,
            r.headers == headers,
            r.body == body,
            r.auth == auth,
    {
        RequestInput { method, url, headers, body, auth }
    }
}

/// The URL a request goes to: trimmed, `http://localhost` when blank, and
/// with `https://` in front when it names no `http://` or `https://` scheme.
pub open spec fn normalized_url(url: Seq<char>) -> Seq<char> {
    let t = trim(url);
    if t.len() == 0 {
        "http://localhost"@
    } else if starts_with(t, "http://"@) || starts_with(t, "https://"@) {
        t
    } else {
        "https://"@ + t
    }
}

/// Normalising a URL that is already normalised changes nothing.
pub proof fn lemma_normalized_url_idempotent(url: Seq<char>)
    ensures
        normalized_url(normalized_url(url)) == normalized_url(url),
{
    let t = trim(url);
    lemma_trim_ends(url);
    let n = normalized_url(url);
    reveal_strlit("http://localhost");
    reveal_strlit("http://");
    reveal_strlit("https://");
    if t.len() == 0 {
        lemma_trim_fixed(n);
        assert(n.subrange(0, 7) =~= "http://"@);
    } else if starts_with(t, "http://"@) || starts_with(t, "https://"@) {
        lemma_trim_fixed(t);
    } else {
        assert(n.last() == t.last());
        lemma_trim_fixed(n);
        assert(n.subrange(0, 8) =~= "https://"@);
    }
}

pub fn normalize_url(url: &str) -> (r: String)
    ensures
        r@ == normalized_url(url@),
{
    let t = trimmed(&chars_of(url));
    if t.len() == 0 {
        "http://localhost".to_owned()
    } else if match_at(&t, &chars_of("http://"), 0) || match_at(&t, &chars_of("https://"), 0) {
        string_from(&t)
    } else {
        let mut v = chars_of("https://");
        extend_chars(&mut v, &t);
        string_from(&v)
    }
}

#[verifier::external_type_specification]
#[verifier::external_body]
pub struct ExHeaderValue(HeaderValue);

#[verifier::external_type_specification]
#[verifier::external_body]
#[verifier::reject_recursive_types(T)]
pub struct ExHeaderMap<T>(HeaderMap<T>);

/// The headers a `HeaderMap` holds: each name (in its lowercase form) with
/// the text of its value.
pub uninterp spec fn header_entries(m: HeaderMap) -> Map<Seq<char>, Seq<char>>;

/// No headers at all.
pub open spec fn no_headers() -> Map<Seq<char>, Seq<char>> {
    Map::empty()
}

/// Calls `HeaderMap::new`; the contract claims the map holds no header.
#[verifier::external_body]
fn new_header_map() -> (m: HeaderMap)
    ensures
        header_entries(m) == no_headers(),
{
    HeaderMap::new()
}

/// A character allowed in a header name (an HTTP `tchar`).
pub open spec fn is_token_char(c: char) -> bool {
    ||| ('a' <= c && c <= 'z')
    ||| ('A' <= c && c <= 'Z')
    ||| ('0' <= c && c <= '9')
    ||| c == '!' || c == '#' || c == '$' || c == '%' || c == '&' || c == '\'' || c == '*'
    ||| c == '+' || c == '-' || c == '.' || c == '^' || c == '_' || c == '`' || c == '|'
    ||| c == '~'
}

/// What `HeaderName::from_bytes` accepts: one to 65535 token characters.
pub open spec fn valid_header_name(name: Seq<char>) -> bool {
    0 < name.len() <= 65535 && forall|i: int| 0 <= i < name.len() ==> is_token_char(
        #[trigger] name[i],
    )
}

/// What `HeaderValue::from_str` accepts: no control character but tab.
pub open spec fn valid_header_value(value: Seq<char>) -> bool {
    forall|i: int|
        0 <= i < value.len() ==> (#[trigger] value[i] == '\t' || (' ' <= value[i] && value[i]
            != '\u{7f}'))
}


/// Calls `HeaderName::from_bytes`; the contract claims it accepts exactly
/// the names `valid_header_name` describes, and that its error reads
/// `invalid HTTP header name`.
#[verifier::external_body]
fn check_header_name(name: &str) -> (r: Result<(), String>)
    ensures
        r is Ok <==> valid_header_name(name@),
        r matches Err(e) ==> e@ == "invalid HTTP header name"@,
{
    match HeaderName::from_bytes(name.as_bytes()) {
        Ok(_) => Ok(()),
        Err(e) => Err(e.to_string()),
    }
}

/// Calls `HeaderValue::from_str`; the contract claims it accepts exactly the
/// values `valid_header_value` describes, and that its error reads
/// `failed to parse header value`.
#[verifier::external_body]
fn check_header_value(value: &str) -> (r: Result<(), String>)
    ensures
        r is Ok <==> valid_header_value(value@),
        r matches Err(e) ==> e@ == "failed to parse header value"@,
{
    match HeaderValue::from_str(value) {
        Ok(_) => Ok(()),
        Err(e) => Err(e.to_string()),
    }
}

/// Calls `HeaderMap::try_insert` with the `HeaderName` and `HeaderValue`
/// made of the arguments. The contract claims that where it succeeds the map
/// then holds `value` under the lowercase form of `name`, in place of
/// anything it held there before, and that where it fails (the map has
/// reached its maximum size, `MaxSizeReached`) the map holds what it held.
/// It succeeds on a map of fewer than 6554 names: `try_reserve_one` can only
/// fail in `try_grow` once the index table would pass `MAX_SIZE` (32768
/// slots), which takes at least 6554 entries (`entries * 5 >= 32768` on the
/// "yellow" path, 24576 otherwise), and `try_insert_entry` only at 32768
/// entries. Above that bound when it fails depends on the map's hashing
/// state, which the contract leaves open.
#[verifier::external_body]
fn insert_header(m: &mut HeaderMap, name: &str, value: &str) -> (ok: bool)
    requires
        valid_header_name(name@),
        valid_header_value(value@),
    ensures
        header_entries(*old(m)).dom().finite() && header_entries(*old(m)).dom().len() < 6554
            ==> ok,
        ok ==> header_entries(*final(m)) == header_entries(*old(m)).insert(
            ascii_lowercase(name@),
            value@,
        ),
        !ok ==> header_entries(*final(m)) == header_entries(*old(m)),
{
    m.try_insert(HeaderName::from_bytes(name.as_bytes()).unwrap(), HeaderValue::from_str(value).unwrap())
        .is_ok()
}

/// The message given where the header map has reached its maximum size.
pub open spec fn map_full_message() -> Seq<char> {
    "Too many headers: max size reached"@
}

pub open spec fn missing_colon_message(line: nat) -> Seq<char> {
    "Header line "@ + decimal(line) + " is missing ':'"@
}

pub open spec fn bad_name_message(line: nat) -> Seq<char> {
    "Invalid header name on line "@ + decimal(line) + ": invalid HTTP header name"@
}

pub open spec fn bad_value_message(line: nat) -> Seq<char> {
    "Invalid header value on line "@ + decimal(line) + ": failed to parse header value"@
}

/// The headers written one per line as `Name: value` in `ls[k..]`, added to
/// `acc`, or the message for the first line that is not one (lines are
/// counted from 1, blank lines are skipped, names and values are trimmed,
/// and a later header replaces an earlier one of the same name).
pub open spec fn headers_from(ls: Seq<Seq<char>>, k: int, acc: Map<Seq<char>, Seq<char>>) -> Result<
    Map<Seq<char>, Seq<char>>,
    Seq<char>,
>
    decreases ls.len() - k,
{
    if k < 0 || k >= ls.len() {
        Ok(acc)
    } else {
        let l = trim(ls[k]);
        if l.len() == 0 {
            headers_from(ls, k + 1, acc)
        } else {
            match split_once(l, ':') {
                None => Err(missing_colon_message((k + 1) as nat)),
                Some(parts) => {
                    let name = trim(parts.0);
                    let value = trim(parts.1);
                    if !valid_header_name(name) {
                        Err(bad_name_message((k + 1) as nat))
                    } else if !valid_header_value(value) {
                        Err(bad_value_message((k + 1) as nat))
                    } else {
                        headers_from(ls, k + 1, acc.insert(ascii_lowercase(name), value))
                    }
                },
            }
        }
    }
}

pub open spec fn parsed_headers(text: Seq<char>) -> Result<Map<Seq<char>, Seq<char>>, Seq<char>> {
    headers_from(lines(text), 0, no_headers())
}

/// A header line `N:V` sets exactly the header `N` (in lowercase) to the
/// whole text after the first colon, trimmed, even where that text holds
/// more colons.
pub proof fn lemma_header_value_after_first_colon(n: Seq<char>, v: Seq<char>)
    requires
        valid_header_name(n),
        forall|i: int| 0 <= i < v.len() ==> v[i] != '\n',
        valid_header_value(trim(v)),
    ensures
        parsed_headers(n + seq![':'] + v) == Ok::<Map<Seq<char>, Seq<char>>, Seq<char>>(
            no_headers().insert(ascii_lowercase(n), trim(v)),
        ),
{
    let nc = n + seq![':'];
    let line = nc + v;
    assert forall|i: int| 0 <= i < n.len() implies n[i] != ':' && n[i] != '\n'
        && !is_whitespace(#[trigger] n[i]) by {
        assert(is_token_char(n[i]));
    }
    assert forall|i: int| 0 <= i < line.len() implies line[i] != '\n' by {
        if i < n.len() {
            assert(line[i] == n[i]);
        } else if i > n.len() {
            assert(line[i] == v[i - n.len() - 1]);
        }
    }
    lemma_one_line(line);
    let ls = lines(line);
    assert(ls[0] == line);
    // trimming the line only trims the end of the value
    assert(line[0] == n[0]);
    assert(trim_start(line) == line);
    assert(nc.last() == ':');
    lemma_trim_end_concat(nc, v);
    let l = trim(line);
    assert(l == n + seq![':'] + trim_end(v));
    lemma_split_once_first(n, ':', trim_end(v));
    lemma_trim_fixed(n);
    lemma_trim_after_trim_end(v);
    assert(l.len() > 0);
    let acc = no_headers().insert(ascii_lowercase(n), trim(v));
    assert(headers_from(ls, 1, acc) == Ok::<Map<Seq<char>, Seq<char>>, Seq<char>>(acc));
}

fn line_message(prefix: &str, line: usize, suffix: &str) -> (r: String)
    ensures
        r@ == prefix@ + decimal(line as nat) + suffix@,
{
    let mut v = chars_of(prefix);
    extend_str(&mut v, decimal_string(line).as_str());
    extend_str(&mut v, suffix);
    string_from(&v)
}

/// Reads the headers written one per line as `Name: value`.
pub fn parse_headers(headers_str: &str) -> (r: Result<HeaderMap, String>)
    ensures
        r matches Ok(m) ==> parsed_headers(headers_str@) == Ok::<
            Map<Seq<char>, Seq<char>>,
            Seq<char>,
        >(header_entries(m)),
        r matches Err(e) ==> parsed_headers(headers_str@) == Err::<
            Map<Seq<char>, Seq<char>>,
            Seq<char>,
        >(e@) || e@ == map_full_message(),
        parsed_headers(headers_str@) is Err ==> r is Err,
        r matches Ok(m) ==> header_entries(m).dom().finite() && header_entries(m).dom().len()
            <= lines(headers_str@).len(),
        lines(headers_str@).len() < 6554 ==> (r is Ok <==> parsed_headers(headers_str@) is Ok) && (
        r matches Err(e) ==> parsed_headers(headers_str@) == Err::<
            Map<Seq<char>, Seq<char>>,
            Seq<char>,
        >(e@)),
{
    let mut headers = new_header_map();
    let ls = split_lines(&chars_of(headers_str));
    let ghost rows = char_rows(ls@);
    let mut k: usize = 0;
    while k < ls.len()
        invariant
            k <= ls@.len(),
            rows == char_rows(ls@),
            rows == lines(headers_str@),
            parsed_headers(headers_str@) == headers_from(rows, k as int, header_entries(headers)),
            header_entries(headers).dom().finite(),
            header_entries(headers).dom().len() <= k,
        decreases ls.len() - k,
    {
        let l = trimmed(&ls[k]);
        if l.len() > 0 {
            proof {
                lemma_find_char_from(l@, ':', 0);
            }
            match find_char(&l, ':', 0) {
                None => {
                    return Err(line_message("Header line ", k + 1, " is missing ':'"));
                },
                Some(colon) => {
                    let key = slice_chars(&l, 0, colon);
                    let val = slice_chars(&l, colon + 1, l.len());
                    assert(key@ =~= l@.take(colon as int));
                    assert(val@ =~= l@.skip(colon + 1));
                    let name = string_from(&trimmed(&key));
                    let value = string_from(&trimmed(&val));
                    if check_header_name(name.as_str()).is_err() {
                        return Err(
                            line_message(
                                "Invalid header name on line ",
                                k + 1,
                                ": invalid HTTP header name",
                            ),
                        );
                    }
                    if check_header_value(value.as_str()).is_err() {
                        return Err(
                            line_message(
                                "Invalid header value on line ",
                                k + 1,
                                ": failed to parse header value",
                            ),
                        );
                    }
                    if !insert_header(&mut headers, name.as_str(), value.as_str()) {
                        return Err("Too many headers: max size reached".to_owned());
                    }
                },
            }
        }
        k = k + 1;
    }
    Ok(headers)
}

/// A request ready to go out: where, how, with which headers and body.
pub struct PreparedRequest {
    pub method: Method,
    pub url: String,
    pub headers: HeaderMap,
    pub body: Option<String>,
}

/// A prepared request seen as plain data.
pub struct RequestPlan {
    pub method: Method,
    pub url: Seq<char>,
    pub headers: Map<Seq<char>, Seq<char>>,
    pub body: Option<Seq<char>>,
}

pub open spec fn plan_of(p: PreparedRequest) -> RequestPlan {
    RequestPlan {
        method: p.method,
        url: p.url@,
        headers: header_entries(p.headers),
        body: match p.body {
            Some(b) => Some(b@),
            None => None,
        },
    }
}

pub open spec fn bad_auth_message() -> Seq<char> {
    "Invalid Authorization header: failed to parse header value"@
}

/// What a request input turns into before it is sent, or the message that
/// stops it: the normalised URL; the parsed headers with the normalised
/// auth field under `authorization`, where there is one; and the body where
/// it is not blank.
pub open spec fn request_plan(
    method: Method,
    url: Seq<char>,
    headers: Seq<char>,
    body: Seq<char>,
    auth: Seq<char>,
) -> Result<RequestPlan, Seq<char>> {
    match parsed_headers(headers) {
        Err(e) => Err(e),
        Ok(hs) => {
            let b = if trim(body).len() > 0 {
                Some(body)
            } else {
                None
            };
            match auth_header_value(auth) {
                Some(a) => if valid_header_value(a) {
                    Ok(
                        RequestPlan {
                            method,
                            url: normalized_url(url),
                            headers: hs.insert("authorization"@, a),
                            body: b,
                        },
                    )
                } else {
                    Err(bad_auth_message())
                },
                None => Ok(RequestPlan { method, url: normalized_url(url), headers: hs, body: b }),
            }
        },
    }
}

pub open spec fn plan_result(r: Result<PreparedRequest, String>) -> Result<RequestPlan, Seq<char>> {
    match r {
        Ok(p) => Ok(plan_of(p)),
        Err(e) => Err(e@),
    }
}

/// Prepares a request input for sending.
pub fn prepare_request(input: &RequestInput) -> (r: Result<PreparedRequest, String>)
    ensures
        r is Ok ==> plan_result(r) == request_plan(
            input.method,
            input.url@,
            input.headers@,
            input.body@,
            input.auth@,
        ),
        r matches Err(e) ==> request_plan(
            input.method,
            input.url@,
            input.headers@,
            input.body@,
            input.auth@,
        ) == Err::<RequestPlan, Seq<char>>(e@) || e@ == map_full_message(),
        request_plan(input.method, input.url@, input.headers@, input.body@, input.auth@) is Err
            ==> r is Err,
        lines(input.headers@).len() < 6553 ==> (r is Ok <==> request_plan(
            input.method,
            input.url@,
            input.headers@,
            input.body@,
            input.auth@,
        ) is Ok) && (r matches Err(e) ==> request_plan(
            input.method,
            input.url@,
            input.headers@,
            input.body@,
            input.auth@,
        ) == Err::<RequestPlan, Seq<char>>(e@)),
{
    let url = normalize_url(input.url.as_str());
    let mut headers = match parse_headers(input.headers.as_str()) {
        Ok(h) => h,
        Err(e) => {
            return Err(e);
        },
    };
    match normalize_auth_header(input.auth.as_str()) {
        Some(a) => {
            if check_header_value(a.as_str()).is_err() {
                return Err("Invalid Authorization header: failed to parse header value".to_owned());
            }
            let name = "authorization";
            proof {
                reveal_strlit("authorization");
                assert(valid_header_name(name@)) by {
                    assert forall|i: int| 0 <= i < name@.len() implies is_token_char(
                        #[trigger] name@[i],
                    ) by {}
                }
                assert(ascii_lowercase(name@) =~= name@);
            }
            if !insert_header(&mut headers, name, a.as_str()) {
                return Err("Too many headers: max size reached".to_owned());
            }
        },
        None => {},
    }
    let body = if trimmed(&chars_of(input.body.as_str())).len() > 0 {
        Some(input.body.clone())
    } else {
        None
    };
    Ok(PreparedRequest { method: input.method, url, headers, body })
}

/// ASCII lowercase of a character.
pub fn lower_ascii_char(c: char) -> (r: char)
    ensures
        r == ascii_lower(c),
{
    if 'A' <= c && c <= 'Z' {
        ((c as u8) + 32) as char
    } else {
        c
    }
}

/// The two texts are equal up to ASCII letter case (`str::eq_ignore_ascii_case`).
pub open spec fn same_ignoring_ascii_case(a: Seq<char>, b: Seq<char>) -> bool {
    ascii_lowercase(a) == ascii_lowercase(b)
}

pub fn eq_ignore_ascii_case(a: &str, b: &str) -> (r: bool)
    ensures
        r == same_ignoring_ascii_case(a@, b@),
{
    let x = chars_of(a);
    let y = chars_of(b);
    if x.len() != y.len() {
        assert(ascii_lowercase(a@).len() != ascii_lowercase(b@).len());
        return false;
    }
    let mut i: usize = 0;
    while i < x.len()
        invariant
            x@ == a@,
            y@ == b@,
            x.len() == y.len(),
            i <= x.len(),
            forall|j: int| 0 <= j < i ==> ascii_lower(x@[j]) == ascii_lower(y@[j]),
        decreases x.len() - i,
    {
        if lower_ascii_char(x[i]) != lower_ascii_char(y[i]) {
            assert(ascii_lowercase(a@)[i as int] != ascii_lowercase(b@)[i as int]);
            return false;
        }
        i = i + 1;
    }
    assert(ascii_lowercase(a@) =~= ascii_lowercase(b@));
    true
}

/// Headers seen as plain text.
pub open spec fn header_pairs(h: Seq<(String, String)>) -> Seq<(Seq<char>, Seq<char>)> {
    Seq::new(h.len(), |i: int| (h[i].0@, h[i].1@))
}

/// A reply whose `Content-Type` (in any letter case) names `application/json`.
pub open spec fn is_json_reply(headers: Seq<(Seq<char>, Seq<char>)>) -> bool {
    exists|i: int|
        0 <= i < headers.len() && same_ignoring_ascii_case(#[trigger] headers[i].0, "content-type"@)
            && contains(headers[i].1, "application/json"@)
}

/// Whether a reply is JSON is decided header by header, wherever the
/// header stands: no header makes it JSON only if it is a `Content-Type`
/// (in any letter case) naming `application/json`, and joining two header
/// lists makes it JSON exactly when either list does; so adding or
/// reordering other headers never changes how the body is shown.
pub proof fn lemma_json_reply_by_any_header(
    h1: Seq<(Seq<char>, Seq<char>)>,
    h2: Seq<(Seq<char>, Seq<char>)>,
    name: Seq<char>,
    value: Seq<char>,
)
    ensures
        !is_json_reply(Seq::empty()),
        is_json_reply(seq![(name, value)]) == (same_ignoring_ascii_case(name, "content-type"@)
            && contains(value, "application/json"@)),
        is_json_reply(h1 + h2) == (is_json_reply(h1) || is_json_reply(h2)),
{
    let one = seq![(name, value)];
    if is_json_reply(one) {
        let i = choose|i: int|
            0 <= i < one.len() && same_ignoring_ascii_case(#[trigger] one[i].0, "content-type"@)
                && contains(one[i].1, "application/json"@);
        assert(i == 0);
    }
    if same_ignoring_ascii_case(name, "content-type"@) && contains(value, "application/json"@) {
        assert(one[0].0 == name && one[0].1 == value);
    }
    let h = h1 + h2;
    if is_json_reply(h) {
        let i = choose|i: int|
            0 <= i < h.len() && same_ignoring_ascii_case(#[trigger] h[i].0, "content-type"@)
                && contains(h[i].1, "application/json"@);
        if i < h1.len() {
            assert(h[i] == h1[i]);
        } else {
            assert(h[i] == h2[i - h1.len()]);
        }
    }
    if is_json_reply(h1) {
        let i = choose|i: int|
            0 <= i < h1.len() && same_ignoring_ascii_case(#[trigger] h1[i].0, "content-type"@)
                && contains(h1[i].1, "application/json"@);
        assert(h[i] == h1[i]);
    }
    if is_json_reply(h2) {
        let i = choose|i: int|
            0 <= i < h2.len() && same_ignoring_ascii_case(#[trigger] h2[i].0, "content-type"@)
                && contains(h2[i].1, "application/json"@);
        assert(h[h1.len() + i] == h2[i]);
    }
}

/// The response shown for a reply: its status, time and headers, and its
/// body, pretty-printed where the reply is JSON.
pub fn response_from_reply(
    status: u16,
    status_text: String,
    duration: u64,
    headers: Vec<(String, String)>,
    text: String,
) -> (r: ResponseState)
    ensures
        r.status == status,
        r.status_text == status_text,
        r.duration == duration,
        r.headers == headers,
        r.body@ == (if is_json_reply(header_pairs(headers@)) {
            formatted_body(text@)
        } else {
            text@
        }),
{
    let mut is_json = false;
    let ghost pairs = header_pairs(headers@);
    let json_kind = chars_of("application/json");
    let mut i: usize = 0;
    while i < headers.len()
        invariant
            i <= headers@.len(),
            pairs == header_pairs(headers@),
            json_kind@ == "application/json"@,
            is_json == exists|j: int|
                0 <= j < i && same_ignoring_ascii_case(#[trigger] pairs[j].0, "content-type"@)
                    && contains(pairs[j].1, "application/json"@),
        decreases headers.len() - i,
    {
        let name_matches = eq_ignore_ascii_case(headers[i].0.as_str(), "content-type");
        let value_matches = contains_seq(&chars_of(headers[i].1.as_str()), &json_kind);
        assert(pairs[i as int] == (headers@[i as int].0@, headers@[i as int].1@));
        let ghost was = is_json;
        if name_matches && value_matches {
            is_json = true;
        }
        proof {
            let hit = |j: int|
                0 <= j < i + 1 && same_ignoring_ascii_case(pairs[j].0, "content-type"@) && contains(
                    pairs[j].1,
                    "application/json"@,
                );
            if name_matches && value_matches {
                assert(hit(i as int));
            }
            if was {
                let j = choose|j: int|
                    0 <= j < i && same_ignoring_ascii_case(#[trigger] pairs[j].0, "content-type"@)
                        && contains(pairs[j].1, "application/json"@);
                assert(hit(j));
            }
        }
        i = i + 1;
    }
    let body = if is_json {
        format_json_body(text.as_str())
    } else {
        text
    };
    ResponseState { status, status_text, duration, headers, body }
}

#[verifier::external_type_specification]
#[verifier::external_body]
pub struct ExInstant(std::time::Instant);

/// Calls `Instant::elapsed` and counts its milliseconds; nothing is claimed
/// of the result, which depends on the clock.
#[verifier::external_body]
fn elapsed_millis(start: &std::time::Instant) -> u64 {
    start.elapsed().as_millis() as u64
}

/// The response shown when a request cannot be sent: status 0, the message
/// after `Error: `, no headers and no body; the duration is the time since
/// `start_time`.
pub fn error_response(start_time: std::time::Instant, message: String) -> (r: ResponseState)
    ensures
        r.status == 0,
        r.status_text@ == "Error: "@ + message@,
        r.headers@.len() == 0,
        r.body@.len() == 0,
{
    let mut text = chars_of("Error: ");
    extend_str(&mut text, message.as_str());
    ResponseState {
        status: 0,
        status_text: string_from(&text),
        duration: elapsed_millis(&start_time),
        headers: Vec::new(),
        body: String::new(),
    }
}

} // verus!

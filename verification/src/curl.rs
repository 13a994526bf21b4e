//! The curl command equivalent to a request.

use vstd::prelude::*;

use crate::auth::{auth_header_value, normalize_auth_header};
use crate::request::{
    is_token_char, lemma_header_value_after_first_colon, lemma_normalized_url_idempotent,
    method_name, normalize_url, normalized_url, parsed_headers, valid_header_name,
    valid_header_value, Method, RequestInput,
};
use crate::text::{
    char_rows, chars_of, extend_chars, extend_str, find_char, is_whitespace,
    lemma_find_char_from, lemma_one_line, lemma_split_once_first, lemma_trim_ends,
    lemma_trim_fixed, lines, slice_chars, split_lines, split_once, string_from, trim, trim_start,
    trimmed,
};

verus! {

/// `s` made safe inside single quotes: each `'` becomes `'\''`.
pub open spec fn shell_quoted(s: Seq<char>) -> Seq<char>
    decreases s.len(),
{
    if s.len() == 0 {
        Seq::empty()
    } else {
        shell_quoted(s.drop_last()) + if s.last() == '\'' {
            seq!['\'', '\\', '\'', '\'']
        } else {
            seq![s.last()]
        }
    }
}

fn write_shell_quoted(s: &Vec<char>, out: &mut Vec<char>)
    ensures
        final(out)@ == old(out)@ + shell_quoted(s@),
{
    let ghost start = out@;
    for i in 0..s.len()
        invariant
            out@ == start + shell_quoted(s@.take(i as int)),
    {
        assert(s@.take(i + 1).drop_last() =~= s@.take(i as int));
        if s[i] == '\'' {
            out.push('\'');
            out.push('\\');
            out.push('\'');
            out.push('\'');
        } else {
            out.push(s[i]);
        }
        assert(out@ =~= start + shell_quoted(s@.take(i + 1)));
    }
    assert(s@.take(s.len() as int) =~= s@);
}

fn shell_single_quote(value: &str) -> (r: String)
    ensures
        r@ == shell_quoted(value@),
{
    let mut out: Vec<char> = Vec::new();
    write_shell_quoted(&chars_of(value), &mut out);
    assert(out@ =~= shell_quoted(value@));
    string_from(&out)
}

/// The `-H` option for one line of the headers text: the trimmed name and
/// value around `: `, for a line holding a `:`; nothing otherwise.
pub open spec fn header_option(line: Seq<char>) -> Seq<char> {
    match split_once(line, ':') {
        Some(p) => " \\\n  -H '"@ + shell_quoted(trim(p.0) + ": "@ + trim(p.1)) + "'"@,
        None => Seq::empty(),
    }
}

/// The `-H` options for the given lines, in order.
pub open spec fn header_options(ls: Seq<Seq<char>>) -> Seq<char>
    decreases ls.len(),
{
    if ls.len() == 0 {
        Seq::empty()
    } else {
        header_options(ls.drop_last()) + header_option(ls.last())
    }
}

/// The `-H` option for the auth field, where it gives an `Authorization` header.
pub open spec fn auth_option(auth: Seq<char>) -> Seq<char> {
    match auth_header_value(auth) {
        Some(a) => " \\\n  -H '"@ + shell_quoted("Authorization: "@ + a) + "'"@,
        None => Seq::empty(),
    }
}

/// The `-d` option for a body that is not blank.
pub open spec fn body_option(body: Seq<char>) -> Seq<char> {
    if trim(body).len() > 0 {
        " \\\n  -d '"@ + shell_quoted(body) + "'"@
    } else {
        Seq::empty()
    }
}

/// The curl command for a request: method, normalised URL, one `-H` per
/// header line, the `Authorization` header, and the body.
pub open spec fn curl_command(
    method: Method,
    url: Seq<char>,
    headers: Seq<char>,
    body: Seq<char>,
    auth: Seq<char>,
) -> Seq<char> {
    "curl -X "@ + method_name(method) + " '"@ + shell_quoted(normalized_url(url)) + "'"@
        + header_options(lines(headers)) + auth_option(auth) + body_option(body)
}

/// The curl command of a request whose URL was normalised first is the
/// command of the request itself.
pub proof fn lemma_curl_of_normalized_url(
    method: Method,
    url: Seq<char>,
    headers: Seq<char>,
    body: Seq<char>,
    auth: Seq<char>,
)
    ensures
        curl_command(method, normalized_url(url), headers, body, auth) == curl_command(
            method,
            url,
            headers,
            body,
            auth,
        ),
{
    lemma_normalized_url_idempotent(url);
}

/// For a headers text of one line `k:v`, the command carries one `-H`
/// option whose text is the trimmed name, `: `, and the whole text after
/// the first colon, trimmed, even where that text holds more colons.
pub proof fn lemma_curl_header_whole_value(
    method: Method,
    url: Seq<char>,
    k: Seq<char>,
    v: Seq<char>,
    body: Seq<char>,
    auth: Seq<char>,
)
    requires
        forall|i: int| 0 <= i < k.len() ==> k[i] != ':' && k[i] != '\n',
        forall|i: int| 0 <= i < v.len() ==> v[i] != '\n',
    ensures
        curl_command(method, url, k + seq![':'] + v, body, auth) == "curl -X "@ + method_name(
            method,
        ) + " '"@ + shell_quoted(normalized_url(url)) + "'"@ + " \\\n  -H '"@ + shell_quoted(
            trim(k) + ": "@ + trim(v),
        ) + "'"@ + auth_option(auth) + body_option(body),
{
    let line = k + seq![':'] + v;
    assert forall|i: int| 0 <= i < line.len() implies line[i] != '\n' by {
        if i < k.len() {
            assert(line[i] == k[i]);
        } else if i > k.len() {
            assert(line[i] == v[i - k.len() - 1]);
        }
    }
    lemma_one_line(line);
    lemma_split_once_first(k, ':', v);
    let ls = seq![line];
    assert(ls.drop_last() =~= Seq::<Seq<char>>::empty());
    assert(header_options(ls) == header_options(Seq::<Seq<char>>::empty()) + header_option(line));
    assert(header_options(Seq::<Seq<char>>::empty()) + header_option(line) =~= header_option(
        line,
    ));
}

/// The `-H` text that the command gives for a valid header line reads back,
/// as a header line, to the same header as the line itself.
pub proof fn lemma_curl_header_reads_back(n: Seq<char>, v: Seq<char>)
    requires
        valid_header_name(n),
        forall|i: int| 0 <= i < v.len() ==> v[i] != '\n',
        valid_header_value(trim(v)),
    ensures
        parsed_headers(trim(n) + ": "@ + trim(v)) == parsed_headers(n + seq![':'] + v),
{
    reveal_strlit(": ");
    assert forall|i: int| 0 <= i < n.len() implies !is_whitespace(#[trigger] n[i]) by {
        assert(is_token_char(n[i]));
    }
    lemma_trim_fixed(n);
    let w = seq![' '] + trim(v);
    assert(trim(n) + ": "@ + trim(v) =~= n + seq![':'] + w);
    let t = trim(v);
    lemma_trim_ends(v);
    lemma_trim_fixed(t);
    assert(w.drop_first() =~= t);
    assert(trim_start(w) == trim_start(t));
    assert(trim(w) == t);
    assert forall|i: int| 0 <= i < w.len() implies w[i] != '\n' by {
        if i > 0 {
            assert(w[i] == t[i - 1]);
        }
    }
    lemma_header_value_after_first_colon(n, w);
    lemma_header_value_after_first_colon(n, v);
}

pub fn generate_curl(input: &RequestInput) -> (r: String)
    ensures
        r@ == curl_command(input.method, input.url@, input.headers@, input.body@, input.auth@),
{
    let mut out = chars_of("curl -X ");
    extend_str(&mut out, input.method.to_string().as_str());
    extend_str(&mut out, " '");
    let url = normalize_url(input.url.as_str());
    extend_str(&mut out, shell_single_quote(url.as_str()).as_str());
    extend_str(&mut out, "'");
    let ghost head = out@;
    let ls = split_lines(&chars_of(input.headers.as_str()));
    let ghost rows = char_rows(ls@);
    for k in 0..ls.len()
        invariant
            rows == char_rows(ls@),
            rows == lines(input.headers@),
            out@ == head + header_options(rows.take(k as int)),
    {
        assert(rows.take(k + 1).drop_last() =~= rows.take(k as int));
        let line = &ls[k];
        proof {
            lemma_find_char_from(line@, ':', 0);
        }
        match find_char(line, ':', 0) {
            Some(colon) => {
                let name = slice_chars(line, 0, colon);
                let value = slice_chars(line, colon + 1, line.len());
                assert(name@ =~= line@.take(colon as int));
                assert(value@ =~= line@.skip(colon + 1));
                let mut header = trimmed(&name);
                extend_str(&mut header, ": ");
                extend_chars(&mut header, &trimmed(&value));
                extend_str(&mut out, " \\\n  -H '");
                extend_str(&mut out, shell_single_quote(string_from(&header).as_str()).as_str());
                extend_str(&mut out, "'");
            },
            None => {},
        }
        assert(out@ =~= head + header_options(rows.take(k + 1)));
    }
    assert(rows.take(ls.len() as int) =~= rows);
    match normalize_auth_header(input.auth.as_str()) {
        Some(a) => {
            let mut header = chars_of("Authorization: ");
            extend_str(&mut header, a.as_str());
            extend_str(&mut out, " \\\n  -H '");
            extend_str(&mut out, shell_single_quote(string_from(&header).as_str()).as_str());
            extend_str(&mut out, "'");
        },
        None => {},
    }
    if trimmed(&chars_of(input.body.as_str())).len() > 0 {
        extend_str(&mut out, " \\\n  -d '");
        extend_str(&mut out, shell_single_quote(input.body.as_str()).as_str());
        extend_str(&mut out, "'");
    }
    assert(out@ =~= curl_command(
        input.method,
        input.url@,
        input.headers@,
        input.body@,
        input.auth@,
    ));
    string_from(&out)
}

} // verus!

//! What is kept of a request between sessions, with secrets taken out.

use vstd::prelude::*;

use crate::auth::{is_secret_name, secret_name};
use crate::json::{
    lemma_array_view, lemma_object_view, member_views, parse_json, json_reading, render,
    render_text, serde_pretty, views, JsonData, JsonValue,
};
use crate::app::App;
use crate::request::Method;
use crate::text::{
    char_rows, chars_of, contains, contains_seq, extend_str, find_char, is_whitespace, join,
    join_strings, lemma_find_char_from, lines, matches_at, slice_chars, split_lines, split_once,
    string_from, string_rows, strings_from, trim, trimmed,
};

verus! {

/// The request template that is saved: the method and the lines of each
/// input.
pub struct HistoryState {
    pub method: Method,
    pub url: Vec<String>,
    pub headers: Vec<String>,
    pub body: Vec<String>,
    pub auth: Vec<String>,
    pub extraction_rules: Vec<String>,
}

pub open spec fn redacted_text() -> Seq<char> {
    "<redacted>"@
}

/// A header line as it is saved: a header whose name looks like a secret and
/// whose value holds no `{{` template becomes `name: <redacted>`.
pub open spec fn sanitized_header_line(line: Seq<char>) -> Seq<char> {
    match split_once(line, ':') {
        None => line,
        Some(p) => if secret_name(p.0) && !contains(p.1, seq!['{', '{']) {
            trim(p.0) + ": "@ + redacted_text()
        } else {
            line
        },
    }
}

pub fn sanitize_header_line(line: &str) -> (r: String)
    ensures
        r@ == sanitized_header_line(line@),
{
    let c = chars_of(line);
    proof {
        lemma_find_char_from(c@, ':', 0);
    }
    match find_char(&c, ':', 0) {
        None => line.to_owned(),
        Some(colon) => {
            let name = slice_chars(&c, 0, colon);
            let value = slice_chars(&c, colon + 1, c.len());
            assert(name@ =~= c@.take(colon as int));
            assert(value@ =~= c@.skip(colon + 1));
            let open = vec!['{', '{'];
            if is_secret_name(string_from(&name).as_str()) && !contains_seq(&value, &open) {
                let mut out = trimmed(&name);
                extend_str(&mut out, ": <redacted>");
                proof {
                    reveal_strlit(": <redacted>");
                    reveal_strlit(": ");
                    reveal_strlit("<redacted>");
                }
                assert(": <redacted>"@ =~= ": "@ + redacted_text());
                string_from(&out)
            } else {
                line.to_owned()
            }
        },
    }
}

/// An auth line as it is saved: blank lines and `{{` templates stay, any
/// other value becomes `<redacted>`.
pub open spec fn sanitized_auth_line(line: Seq<char>) -> Seq<char> {
    if trim(line).len() == 0 || contains(line, seq!['{', '{']) {
        line
    } else {
        redacted_text()
    }
}

pub fn sanitize_auth_line(line: &str) -> (r: String)
    ensures
        r@ == sanitized_auth_line(line@),
{
    let c = chars_of(line);
    let open = vec!['{', '{'];
    if trimmed(&c).len() == 0 || contains_seq(&c, &open) {
        line.to_owned()
    } else {
        "<redacted>".to_owned()
    }
}

/// A member value that is a `{{` template, and so is kept.
pub open spec fn is_template(d: JsonData) -> bool {
    d matches JsonData::Str(s) && contains(s, seq!['{', '{'])
}

/// A JSON value with the value of every member whose name looks like a
/// secret replaced by the string `<redacted>`, unless it is a template;
/// other values are searched for such members all the way down.
pub open spec fn redacted(d: JsonData) -> JsonData
    decreases d,
{
    match d {
        JsonData::Object(ms) => JsonData::Object(
            Seq::new(
                ms.len(),
                |i: int|
                    if 0 <= i < ms.len() {
                        if secret_name(ms[i].0) && !is_template(ms[i].1) {
                            (ms[i].0, JsonData::Str(redacted_text()))
                        } else {
                            (ms[i].0, redacted(ms[i].1))
                        }
                    } else {
                        (Seq::empty(), JsonData::Null)
                    },
            ),
        ),
        JsonData::Array(items) => JsonData::Array(
            Seq::new(
                items.len(),
                |i: int|
                    if 0 <= i < items.len() {
                        redacted(items[i])
                    } else {
                        JsonData::Null
                    },
            ),
        ),
        _ => d,
    }
}

/// A copy of a value.
fn copy_value(v: &JsonValue) -> (r: JsonValue)
    ensures
        r@ == v@,
    decreases v, 0int,
{
    match v {
        JsonValue::Null => JsonValue::Null,
        JsonValue::Bool(b) => JsonValue::Bool(*b),
        JsonValue::Number(n) => JsonValue::Number(n.clone()),
        JsonValue::Str(s) => JsonValue::Str(s.clone()),
        JsonValue::Array(items) => {
            proof {
                lemma_array_view(*items);
            }
            let mut out: Vec<JsonValue> = Vec::new();
            for i in 0..items.len()
                invariant
                    *v == JsonValue::Array(*items),
                    v@ == JsonData::Array(views(items@)),
                    views(out@) == views(items@).take(i as int),
            {
                let ghost before = views(out@);
                let c = copy_value(&items[i]);
                let ghost cv = c@;
                out.push(c);
                assert(views(out@) =~= before.push(cv));
                assert(views(items@).take(i + 1) =~= views(items@).take(i as int).push(cv));
            }
            proof {
                assert(views(items@).take(items.len() as int) =~= views(items@));
            }
            let ghost ov = out;
            let r = JsonValue::Array(out);
            proof {
                lemma_array_view(ov);
            }
            r
        },
        JsonValue::Object(members) => {
            proof {
                lemma_object_view(*members);
            }
            let mut out: Vec<(String, JsonValue)> = Vec::new();
            for i in 0..members.len()
                invariant
                    *v == JsonValue::Object(*members),
                    v@ == JsonData::Object(member_views(members@)),
                    member_views(out@) == member_views(members@).take(i as int),
            {
                let ghost before = member_views(out@);
                let k = members[i].0.clone();
                let c = copy_value(&members[i].1);
                let ghost mv = (k@, c@);
                out.push((k, c));
                assert(member_views(out@) =~= before.push(mv));
                assert(member_views(members@).take(i + 1) =~= member_views(members@).take(
                    i as int,
                ).push(mv));
            }
            proof {
                assert(member_views(members@).take(members.len() as int) =~= member_views(
                    members@,
                ));
            }
            let ghost ov = out;
            let r = JsonValue::Object(out);
            proof {
                lemma_object_view(ov);
            }
            r
        },
    }
}

/// The value with secrets redacted.
pub fn redact_secret_json_fields(v: &JsonValue) -> (r: JsonValue)
    ensures
        r@ == redacted(v@),
    decreases v, 0int,
{
    match v {
        JsonValue::Array(items) => {
            proof {
                lemma_array_view(*items);
            }
            let ghost target = redacted(v@)->Array_0;
            let mut out: Vec<JsonValue> = Vec::new();
            for i in 0..items.len()
                invariant
                    *v == JsonValue::Array(*items),
                    v@ == JsonData::Array(views(items@)),
                    target == redacted(v@)->Array_0,
                    views(out@) == target.take(i as int),
            {
                let ghost before = views(out@);
                let c = redact_secret_json_fields(&items[i]);
                let ghost cv = c@;
                out.push(c);
                assert(views(out@) =~= before.push(cv));
                assert(target[i as int] == cv);
                assert(target.take(i + 1) =~= target.take(i as int).push(cv));
            }
            assert(target.take(items.len() as int) =~= target);
            let ghost ov = out;
            let r = JsonValue::Array(out);
            proof {
                lemma_array_view(ov);
            }
            r
        },
        JsonValue::Object(members) => {
            proof {
                lemma_object_view(*members);
            }
            let ghost target = redacted(v@)->Object_0;
            let open = vec!['{', '{'];
            let mut out: Vec<(String, JsonValue)> = Vec::new();
            for i in 0..members.len()
                invariant
                    *v == JsonValue::Object(*members),
                    v@ == JsonData::Object(member_views(members@)),
                    target == redacted(v@)->Object_0,
                    member_views(out@) == target.take(i as int),
                    open@ == seq!['{', '{'],
            {
                let key = &members[i].0;
                let value = &members[i].1;
                let keeps = match value {
                    JsonValue::Str(s) => contains_seq(&chars_of(s.as_str()), &open),
                    _ => false,
                };
                assert(keeps == is_template(value@));
                let ghost before = member_views(out@);
                let c = if is_secret_name(key.as_str()) && !keeps {
                    JsonValue::Str("<redacted>".to_owned())
                } else {
                    redact_secret_json_fields(value)
                };
                let ghost mv = (key@, c@);
                out.push((key.clone(), c));
                assert(member_views(out@) =~= before.push(mv));
                assert(target[i as int] == mv);
                assert(target.take(i + 1) =~= target.take(i as int).push(mv));
            }
            assert(target.take(members.len() as int) =~= target);
            let ghost ov = out;
            let r = JsonValue::Object(out);
            proof {
                lemma_object_view(ov);
            }
            r
        },
        _ => copy_value(v),
    }
}

/// Lines seen as text.
pub open spec fn unchanged(ls: Seq<String>) -> Seq<Seq<char>> {
    string_rows(ls)
}

/// The body lines as they are saved: where the joined body is JSON, the
/// lines of the pretty-printed value with secrets redacted; otherwise the
/// lines as they are.
pub open spec fn sanitized_body(ls: Seq<Seq<char>>) -> Seq<Seq<char>> {
    let body = join(ls, "\n"@);
    if trim(body).len() == 0 {
        ls
    } else {
        match json_reading(body) {
            Err(_) => ls,
            Ok(d) => match serde_pretty(render(redacted(d))) {
                Some(p) => lines(p),
                None => ls,
            },
        }
    }
}

fn copy_lines(ls: &Vec<String>) -> (r: Vec<String>)
    ensures
        string_rows(r@) == string_rows(ls@),
{
    let mut r: Vec<String> = Vec::new();
    for i in 0..ls.len()
        invariant
            r@.len() == i,
            forall|j: int| 0 <= j < i ==> r@[j]@ == ls@[j]@,
    {
        r.push(ls[i].clone());
    }
    assert(string_rows(r@) =~= string_rows(ls@));
    r
}

pub fn sanitize_body_lines(lines_in: &Vec<String>) -> (r: Vec<String>)
    ensures
        string_rows(r@) == sanitized_body(string_rows(lines_in@)),
{
    let body_chars = join_strings(lines_in, "\n");
    if trimmed(&body_chars).len() == 0 {
        return copy_lines(lines_in);
    }
    let body = string_from(&body_chars);
    match parse_json(body.as_str()) {
        Err(_) => copy_lines(lines_in),
        Ok(v) => {
            let clean = redact_secret_json_fields(&v);
            let text = render_text(&clean);
            match crate::json::serde_pretty_text(text.as_str()) {
                Some(p) => {
                    let ls = split_lines(&chars_of(p.as_str()));
                    strings_from(&ls)
                },
                None => copy_lines(lines_in),
            }
        },
    }
}

/// The saved template of a state: the method, the URL and extraction lines
/// as they are, the header and auth lines sanitised one by one, and the body
/// sanitised as a whole. Runtime variables are not part of it.
pub open spec fn saved_from(app: App, state: HistoryState) -> bool {
    &&& state.method == app.method
    &&& string_rows(state.url@) == string_rows(app.url_input@)
    &&& string_rows(state.headers@) == string_rows(app.headers_input@).map_values(
        |l: Seq<char>| sanitized_header_line(l),
    )
    &&& string_rows(state.body@) == sanitized_body(string_rows(app.body_input@))
    &&& string_rows(state.auth@) == string_rows(app.auth_input@).map_values(
        |l: Seq<char>| sanitized_auth_line(l),
    )
    &&& string_rows(state.extraction_rules@) == string_rows(app.extraction_input@)
}

fn sanitize_lines(ls: &Vec<String>, header: bool) -> (r: Vec<String>)
    ensures
        header ==> string_rows(r@) == string_rows(ls@).map_values(
            |l: Seq<char>| sanitized_header_line(l),
        ),
        !header ==> string_rows(r@) == string_rows(ls@).map_values(
            |l: Seq<char>| sanitized_auth_line(l),
        ),
{
    let mut r: Vec<String> = Vec::new();
    for i in 0..ls.len()
        invariant
            r@.len() == i,
            forall|j: int|
                0 <= j < i ==> #[trigger] r@[j]@ == if header {
                    sanitized_header_line(ls@[j]@)
                } else {
                    sanitized_auth_line(ls@[j]@)
                },
    {
        if header {
            r.push(sanitize_header_line(ls[i].as_str()));
        } else {
            r.push(sanitize_auth_line(ls[i].as_str()));
        }
    }
    proof {
        if header {
            assert(string_rows(r@) =~= string_rows(ls@).map_values(
                |l: Seq<char>| sanitized_header_line(l),
            ));
        } else {
            assert(string_rows(r@) =~= string_rows(ls@).map_values(
                |l: Seq<char>| sanitized_auth_line(l),
            ));
        }
    }
    r
}

/// The template of the current request to save, with direct secrets redacted.
pub fn history_state_from_app(app: &App) -> (state: HistoryState)
    ensures
        saved_from(*app, state),
{
    HistoryState {
        method: app.method,
        url: copy_lines(&app.url_input),
        headers: sanitize_lines(&app.headers_input, true),
        body: sanitize_body_lines(&app.body_input),
        auth: sanitize_lines(&app.auth_input, false),
        extraction_rules: copy_lines(&app.extraction_input),
    }
}

/// The lines an input shows for saved lines: the same lines, or one empty
/// line where none were saved.
pub open spec fn restored_lines(saved: Seq<Seq<char>>) -> Seq<Seq<char>> {
    if saved.len() == 0 {
        seq![Seq::empty()]
    } else {
        saved
    }
}

fn restore_lines(saved: Vec<String>) -> (r: Vec<String>)
    ensures
        string_rows(r@) == restored_lines(string_rows(saved@)),
{
    if saved.len() == 0 {
        let mut v: Vec<String> = Vec::new();
        v.push(String::new());
        assert(string_rows(v@) =~= seq![Seq::<char>::empty()]);
        v
    } else {
        saved
    }
}

impl App {
    /// Takes the method and inputs back from a saved template.
    pub fn restore_history(&mut self, state: HistoryState)
        ensures
            final(self).method == state.method,
            string_rows(final(self).url_input@) == restored_lines(string_rows(state.url@)),
            string_rows(final(self).headers_input@) == restored_lines(string_rows(state.headers@)),
            string_rows(final(self).body_input@) == restored_lines(string_rows(state.body@)),
            string_rows(final(self).auth_input@) == restored_lines(string_rows(state.auth@)),
            string_rows(final(self).extraction_input@) == restored_lines(
                string_rows(state.extraction_rules@),
            ),
            final(self).mode == old(self).mode,
            final(self).active_pane == old(self).active_pane,
            final(self).should_quit == old(self).should_quit,
            final(self).response == old(self).response,
            final(self).is_loading == old(self).is_loading,
            final(self).response_scroll == old(self).response_scroll,
            final(self).variables == old(self).variables,
            final(self).status_message == old(self).status_message,
    {
        self.method = state.method;
        self.url_input = restore_lines(state.url);
        self.headers_input = restore_lines(state.headers);
        self.body_input = restore_lines(state.body);
        self.auth_input = restore_lines(state.auth);
        self.extraction_input = restore_lines(state.extraction_rules);
    }
}


/// No member anywhere in `d` whose name looks like a secret holds anything
/// but `<redacted>` or a `{{` template.
pub open spec fn no_exposed_secrets(d: JsonData) -> bool
    decreases d,
{
    match d {
        JsonData::Object(ms) => forall|i: int|
            #![trigger ms[i]]
            0 <= i < ms.len() ==> {
                &&& (secret_name(ms[i].0) ==> (ms[i].1 == JsonData::Str(redacted_text())
                    || is_template(ms[i].1)))
                &&& no_exposed_secrets(ms[i].1)
            },
        JsonData::Array(items) => forall|i: int|
            #![trigger items[i]]
            0 <= i < items.len() ==> no_exposed_secrets(items[i]),
        _ => true,
    }
}

/// After redaction no secret-looking member anywhere in a JSON body holds a
/// value other than `<redacted>` or a template.
pub proof fn lemma_redaction_hides_secrets(d: JsonData)
    ensures
        no_exposed_secrets(redacted(d)),
    decreases d,
{
    match d {
        JsonData::Object(ms) => {
            let r = redacted(d);
            assert forall|i: int| 0 <= i < ms.len() implies {
                let m = #[trigger] r->Object_0[i];
                &&& (secret_name(m.0) ==> (m.1 == JsonData::Str(redacted_text()) || is_template(
                    m.1,
                )))
                &&& no_exposed_secrets(m.1)
            } by {
                lemma_redaction_hides_secrets(ms[i].1);
            }
        },
        JsonData::Array(items) => {
            let r = redacted(d);
            assert forall|i: int| 0 <= i < items.len() implies no_exposed_secrets(
                #[trigger] r->Array_0[i],
            ) by {
                lemma_redaction_hides_secrets(items[i]);
            }
        },
        _ => {},
    }
}

/// Redacting a body that was already redacted changes nothing more.
pub proof fn lemma_redaction_idempotent(d: JsonData)
    ensures
        redacted(redacted(d)) == redacted(d),
    decreases d,
{
    match d {
        JsonData::Object(ms) => {
            let r = redacted(d);
            let rr = redacted(r);
            assert forall|i: int| 0 <= i < ms.len() implies #[trigger] rr->Object_0[i]
                == r->Object_0[i] by {
                lemma_redaction_idempotent(ms[i].1);
                let v = ms[i].1;
                assert(r->Object_0[i] == if secret_name(ms[i].0) && !is_template(v) {
                    (ms[i].0, JsonData::Str(redacted_text()))
                } else {
                    (ms[i].0, redacted(v))
                });
                let w = r->Object_0[i];
                assert(r->Object_0.len() == ms.len());
                assert(rr->Object_0[i] == if secret_name(w.0) && !is_template(w.1) {
                    (w.0, JsonData::Str(redacted_text()))
                } else {
                    (w.0, redacted(w.1))
                });
                if secret_name(ms[i].0) && is_template(v) {
                    assert(redacted(v) == v);
                }
                if secret_name(ms[i].0) && !is_template(v) {
                    assert(redacted(JsonData::Str(redacted_text())) == JsonData::Str(
                        redacted_text(),
                    ));
                }
            }
            assert(rr->Object_0 =~= r->Object_0);
        },
        JsonData::Array(items) => {
            let r = redacted(d);
            let rr = redacted(r);
            assert forall|i: int| 0 <= i < items.len() implies #[trigger] rr->Array_0[i]
                == r->Array_0[i] by {
                lemma_redaction_idempotent(items[i]);
            }
            assert(rr->Array_0 =~= r->Array_0);
        },
        _ => {},
    }
}

/// A header line whose value holds a `{{` template is saved as it is.
pub proof fn lemma_templated_header_kept(line: Seq<char>)
    requires
        split_once(line, ':') matches Some(p) && contains(p.1, seq!['{', '{']),
    ensures
        sanitized_header_line(line) == line,
{
}

/// Saving an auth line that was already saved gives the same line.
pub proof fn lemma_auth_sanitizing_idempotent(line: Seq<char>)
    ensures
        sanitized_auth_line(sanitized_auth_line(line)) == sanitized_auth_line(line),
{
    let r = redacted_text();
    reveal_strlit("<redacted>");
    assert(r.len() == 10);
    assert(!is_whitespace(r[0]) && !is_whitespace(r.last()));
    assert(trim(r) == r);
    assert forall|i: int| !matches_at(r, seq!['{', '{'], i) by {
        if matches_at(r, seq!['{', '{'], i) {
            assert(r.subrange(i, i + 2)[0] == '{');
        }
    }
}

/// The saved template is made of the method and the input lines alone:
/// states that differ only in their runtime variables, response or view
/// save the same template.
pub proof fn lemma_history_leaves_out_variables(
    a: App,
    b: App,
    sa: HistoryState,
    sb: HistoryState,
)
    requires
        saved_from(a, sa),
        saved_from(b, sb),
        a.method == b.method,
        string_rows(a.url_input@) == string_rows(b.url_input@),
        string_rows(a.headers_input@) == string_rows(b.headers_input@),
        string_rows(a.body_input@) == string_rows(b.body_input@),
        string_rows(a.auth_input@) == string_rows(b.auth_input@),
        string_rows(a.extraction_input@) == string_rows(b.extraction_input@),
    ensures
        sa.method == sb.method,
        string_rows(sa.url@) == string_rows(sb.url@),
        string_rows(sa.headers@) == string_rows(sb.headers@),
        string_rows(sa.body@) == string_rows(sb.body@),
        string_rows(sa.auth@) == string_rows(sb.auth@),
        string_rows(sa.extraction_rules@) == string_rows(sb.extraction_rules@),
{
}

/// Restoring a saved template gives back the method, the URL and the
/// extraction rules as they were, and every header and auth line as it was
/// sanitised; an input always holds at least one line.
pub proof fn lemma_history_round_trip(app: App, state: HistoryState)
    requires
        saved_from(app, state),
        app.url_input@.len() > 0,
        app.headers_input@.len() > 0,
        app.auth_input@.len() > 0,
        app.extraction_input@.len() > 0,
    ensures
        state.method == app.method,
        restored_lines(string_rows(state.url@)) == string_rows(app.url_input@),
        restored_lines(string_rows(state.extraction_rules@)) == string_rows(
            app.extraction_input@,
        ),
        restored_lines(string_rows(state.headers@)) == string_rows(app.headers_input@).map_values(
            |l: Seq<char>| sanitized_header_line(l),
        ),
        restored_lines(string_rows(state.auth@)) == string_rows(app.auth_input@).map_values(
            |l: Seq<char>| sanitized_auth_line(l),
        ),
{
    assert(string_rows(state.url@).len() == app.url_input@.len());
    assert(string_rows(state.extraction_rules@).len() == app.extraction_input@.len());
    assert(string_rows(state.headers@).len() == app.headers_input@.len());
    assert(string_rows(state.auth@).len() == app.auth_input@.len());
}

} // verus!

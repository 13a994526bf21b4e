//! JSON values: a model of what serde_json reads, the compact text serde_json
//! writes for each value, and a reader of that compact text.

use vstd::prelude::*;

use crate::text::{chars_of, extend_chars, match_at, matches_at, string_from};

verus! {

/// A JSON value as the library holds it.
#[derive(Debug)]
pub enum JsonValue {
    Null,
    Bool(bool),
    /// The number as serde_json writes it.
    Number(String),
    Str(String),
    Array(Vec<JsonValue>),
    /// Members in the order serde_json keeps them (sorted by key).
    Object(Vec<(String, JsonValue)>),
}

/// A JSON value as plain data.
pub enum JsonData {
    Null,
    Bool(bool),
    Number(Seq<char>),
    Str(Seq<char>),
    Array(Seq<JsonData>),
    Object(Seq<(Seq<char>, JsonData)>),
}

pub open spec fn data_of(v: JsonValue) -> JsonData
    decreases v,
{
    match v {
        JsonValue::Null => JsonData::Null,
        JsonValue::Bool(b) => JsonData::Bool(b),
        JsonValue::Number(n) => JsonData::Number(n@),
        JsonValue::Str(s) => JsonData::Str(s@),
        JsonValue::Array(items) => JsonData::Array(
            Seq::new(
                items@.len(),
                |i: int|
                    if 0 <= i < items@.len() {
                        data_of(items@[i])
                    } else {
                        JsonData::Null
                    },
            ),
        ),
        JsonValue::Object(members) => JsonData::Object(
            Seq::new(
                members@.len(),
                |i: int|
                    if 0 <= i < members@.len() {
                        (members@[i].0@, data_of(members@[i].1))
                    } else {
                        (Seq::empty(), JsonData::Null)
                    },
            ),
        ),
    }
}

impl View for JsonValue {
    type V = JsonData;

    open spec fn view(&self) -> JsonData {
        data_of(*self)
    }
}

/// Lowercase hexadecimal digit of `n`.
pub open spec fn hex_char(n: int) -> char {
    seq!['0', '1', '2', '3', '4', '5', '6', '7', '8', '9', 'a', 'b', 'c', 'd', 'e', 'f'][n]
}

/// How serde_json writes one character inside a string literal.
pub open spec fn escape_char(c: char) -> Seq<char> {
    if c == '"' {
        seq!['\\', '"']
    } else if c == '\\' {
        seq!['\\', '\\']
    } else if c == '\u{8}' {
        seq!['\\', 'b']
    } else if c == '\u{c}' {
        seq!['\\', 'f']
    } else if c == '\n' {
        seq!['\\', 'n']
    } else if c == '\r' {
        seq!['\\', 'r']
    } else if c == '\t' {
        seq!['\\', 't']
    } else if (c as u32) < 32 {
        seq!['\\', 'u', '0', '0', hex_char(((c as u32) / 16) as int), hex_char(((c as u32) % 16) as int)]
    } else {
        seq![c]
    }
}

/// The escaped characters of a string literal's content.
pub open spec fn escaped(s: Seq<char>) -> Seq<char>
    decreases s.len(),
{
    if s.len() == 0 {
        Seq::empty()
    } else {
        escape_char(s[0]) + escaped(s.drop_first())
    }
}

/// A string literal.
pub open spec fn quoted(s: Seq<char>) -> Seq<char> {
    seq!['"'] + escaped(s) + seq!['"']
}

/// The compact text serde_json writes for a value: no whitespace, members
/// and elements separated by `,`, keys followed by `:`.
pub open spec fn render(d: JsonData) -> Seq<char>
    decreases d, 0int,
{
    match d {
        JsonData::Null => seq!['n', 'u', 'l', 'l'],
        JsonData::Bool(b) => if b {
            seq!['t', 'r', 'u', 'e']
        } else {
            seq!['f', 'a', 'l', 's', 'e']
        },
        JsonData::Number(n) => n,
        JsonData::Str(s) => quoted(s),
        JsonData::Array(items) => seq!['['] + render_items(items, 0) + seq![']'],
        JsonData::Object(members) => seq!['{'] + render_members(members, 0) + seq!['}'],
    }
}

/// The elements `items[i..]`, separated by commas.
pub open spec fn render_items(items: Seq<JsonData>, i: int) -> Seq<char>
    decreases items, items.len() - i,
{
    if i < 0 || i >= items.len() {
        Seq::empty()
    } else if i == items.len() - 1 {
        render(items[i])
    } else {
        render(items[i]) + seq![','] + render_items(items, i + 1)
    }
}

/// The members `members[i..]`, separated by commas.
pub open spec fn render_members(members: Seq<(Seq<char>, JsonData)>, i: int) -> Seq<char>
    decreases members, members.len() - i,
{
    if i < 0 || i >= members.len() {
        Seq::empty()
    } else {
        let m = quoted(members[i].0) + seq![':'] + render(members[i].1);
        if i == members.len() - 1 {
            m
        } else {
            m + seq![','] + render_members(members, i + 1)
        }
    }
}

/// Value of a lowercase hexadecimal digit.
pub open spec fn hex_value(c: char) -> Option<int> {
    if '0' <= c && c <= '9' {
        Some((c as int) - ('0' as int))
    } else if 'a' <= c && c <= 'f' {
        Some((c as int) - ('a' as int) + 10)
    } else {
        None
    }
}

/// The character that the escape sequence at `t[pos]` stands for, and the
/// position after it; only the escapes that serde_json writes are read.
pub open spec fn escape_at(t: Seq<char>, pos: int) -> Option<(char, int)> {
    if pos < 0 || pos + 1 >= t.len() || t[pos] != '\\' {
        None
    } else {
        let e = t[pos + 1];
        if e == '"' {
            Some(('"', pos + 2))
        } else if e == '\\' {
            Some(('\\', pos + 2))
        } else if e == 'b' {
            Some(('\u{8}', pos + 2))
        } else if e == 'f' {
            Some(('\u{c}', pos + 2))
        } else if e == 'n' {
            Some(('\n', pos + 2))
        } else if e == 'r' {
            Some(('\r', pos + 2))
        } else if e == 't' {
            Some(('\t', pos + 2))
        } else if e == 'u' && pos + 5 < t.len() && t[pos + 2] == '0' && t[pos + 3] == '0' {
            match (hex_value(t[pos + 4]), hex_value(t[pos + 5])) {
                (Some(h), Some(l)) => {
                    let code = h * 16 + l;
                    if code < 0x20 && code != 8 && code != 9 && code != 10 && code != 12 && code
                        != 13 {
                        Some((code as char, pos + 6))
                    } else {
                        None
                    }
                },
                _ => None,
            }
        } else {
            None
        }
    }
}

/// The content of the string literal whose body starts at `t[pos]`, and the
/// position after its closing quote.
pub open spec fn string_at(t: Seq<char>, pos: int) -> Option<(Seq<char>, int)>
    decreases t.len() - pos,
{
    if pos < 0 || pos >= t.len() {
        None
    } else if t[pos] == '"' {
        Some((Seq::empty(), pos + 1))
    } else if t[pos] == '\\' {
        match escape_at(t, pos) {
            None => None,
            Some(esc) => {
                if esc.1 <= pos {
                    None
                } else {
                    match string_at(t, esc.1) {
                        None => None,
                        Some(rest) => Some((seq![esc.0] + rest.0, rest.1)),
                    }
                }
            },
        }
    } else if (t[pos] as u32) < 32 {
        None
    } else {
        match string_at(t, pos + 1) {
            None => None,
            Some(rest) => Some((seq![t[pos]] + rest.0, rest.1)),
        }
    }
}

pub open spec fn is_number_char(c: char) -> bool {
    ('0' <= c && c <= '9') || c == '-' || c == '+' || c == '.' || c == 'e' || c == 'E'
}

/// End of the run of number characters starting at `pos`.
pub open spec fn number_end(t: Seq<char>, pos: int) -> int
    decreases t.len() - pos,
{
    if pos < 0 || pos >= t.len() || !is_number_char(t[pos]) {
        pos
    } else {
        number_end(t, pos + 1)
    }
}

pub open spec fn null_text() -> Seq<char> {
    seq!['n', 'u', 'l', 'l']
}

pub open spec fn true_text() -> Seq<char> {
    seq!['t', 'r', 'u', 'e']
}

pub open spec fn false_text() -> Seq<char> {
    seq!['f', 'a', 'l', 's', 'e']
}

/// The value whose compact text starts at `t[pos]`, and the position after it.
pub open spec fn value_at(t: Seq<char>, pos: int) -> Option<(JsonData, int)>
    decreases t.len() - pos, 2int,
{
    if pos < 0 || pos >= t.len() {
        None
    } else if matches_at(t, null_text(), pos) {
        Some((JsonData::Null, pos + 4))
    } else if matches_at(t, true_text(), pos) {
        Some((JsonData::Bool(true), pos + 4))
    } else if matches_at(t, false_text(), pos) {
        Some((JsonData::Bool(false), pos + 5))
    } else if t[pos] == '"' {
        match string_at(t, pos + 1) {
            Some(r) => Some((JsonData::Str(r.0), r.1)),
            None => None,
        }
    } else if t[pos] == '[' {
        if pos + 1 < t.len() && t[pos + 1] == ']' {
            Some((JsonData::Array(Seq::empty()), pos + 2))
        } else {
            elements_at(t, pos + 1, Seq::empty())
        }
    } else if t[pos] == '{' {
        if pos + 1 < t.len() && t[pos + 1] == '}' {
            Some((JsonData::Object(Seq::empty()), pos + 2))
        } else {
            members_at(t, pos + 1, Seq::empty())
        }
    } else if is_number_char(t[pos]) {
        Some((JsonData::Number(t.subrange(pos, number_end(t, pos))), number_end(t, pos)))
    } else {
        None
    }
}

/// The array whose elements after `acc` start at `t[pos]`, and the position
/// after its closing bracket.
pub open spec fn elements_at(t: Seq<char>, pos: int, acc: Seq<JsonData>) -> Option<
    (JsonData, int),
>
    decreases t.len() - pos, 3int,
{
    if pos < 0 || pos > t.len() {
        None
    } else {
        match value_at(t, pos) {
            None => None,
            Some(r) => {
                let e = r.1;
                if e <= pos || e >= t.len() {
                    None
                } else if t[e] == ',' {
                    elements_at(t, e + 1, acc.push(r.0))
                } else if t[e] == ']' {
                    Some((JsonData::Array(acc.push(r.0)), e + 1))
                } else {
                    None
                }
            },
        }
    }
}

/// The object whose members after `acc` start at `t[pos]`, and the position
/// after its closing brace.
pub open spec fn members_at(t: Seq<char>, pos: int, acc: Seq<(Seq<char>, JsonData)>) -> Option<
    (JsonData, int),
>
    decreases t.len() - pos, 3int,
{
    if pos < 0 || pos >= t.len() || t[pos] != '"' {
        None
    } else {
        match string_at(t, pos + 1) {
            None => None,
            Some(k) => {
                let e1 = k.1;
                if e1 <= pos || e1 >= t.len() || t[e1] != ':' {
                    None
                } else {
                    match value_at(t, e1 + 1) {
                        None => None,
                        Some(r) => {
                            let e2 = r.1;
                            if e2 <= e1 || e2 >= t.len() {
                                None
                            } else if t[e2] == ',' {
                                members_at(t, e2 + 1, acc.push((k.0, r.0)))
                            } else if t[e2] == '}' {
                                Some((JsonData::Object(acc.push((k.0, r.0))), e2 + 1))
                            } else {
                                None
                            }
                        },
                    }
                }
            },
        }
    }
}

/// The value that a whole compact text stands for.
pub open spec fn read_json(t: Seq<char>) -> Option<JsonData> {
    match value_at(t, 0) {
        Some(r) => if r.1 == t.len() {
            Some(r.0)
        } else {
            None
        },
        None => None,
    }
}

proof fn lemma_cat(t: Seq<char>, a: int, b: int, c: int)
    requires
        0 <= a <= b <= c <= t.len(),
    ensures
        t.subrange(a, c) == t.subrange(a, b) + t.subrange(b, c),
{
    assert(t.subrange(a, c) =~= t.subrange(a, b) + t.subrange(b, c));
}

proof fn lemma_one(t: Seq<char>, a: int)
    requires
        0 <= a < t.len(),
    ensures
        t.subrange(a, a + 1) == seq![t[a]],
{
    assert(t.subrange(a, a + 1) =~= seq![t[a]]);
}

pub proof fn lemma_escape_at(t: Seq<char>, pos: int)
    ensures
        escape_at(t, pos) matches Some(r) ==> pos + 2 <= r.1 <= t.len() && escape_char(r.0)
            == t.subrange(pos, r.1),
{
    if let Some(r) = escape_at(t, pos) {
        let e = t[pos + 1];
        if e == 'u' {
            let h = hex_value(t[pos + 4]).unwrap();
            let l = hex_value(t[pos + 5]).unwrap();
            let code = h * 16 + l;
            let c = code as char;
            assert(c as int == code);
            assert(code / 16 == h && code % 16 == l);
            assert(hex_char(h) == t[pos + 4]);
            assert(hex_char(l) == t[pos + 5]);
            assert(escape_char(c) =~= t.subrange(pos, r.1));
        } else {
            assert(escape_char(r.0) =~= t.subrange(pos, r.1));
        }
    }
}

pub proof fn lemma_string_at(t: Seq<char>, pos: int)
    ensures
        string_at(t, pos) matches Some(r) ==> pos < r.1 <= t.len() && escaped(r.0) + seq!['"']
            == t.subrange(pos, r.1),
    decreases t.len() - pos,
{
    if let Some(r) = string_at(t, pos) {
        if t[pos] == '"' {
            assert(escaped(r.0) + seq!['"'] =~= t.subrange(pos, r.1));
        } else if t[pos] == '\\' {
            let esc = escape_at(t, pos).unwrap();
            lemma_escape_at(t, pos);
            lemma_string_at(t, esc.1);
            let rest = string_at(t, esc.1).unwrap();
            assert((seq![esc.0] + rest.0).drop_first() =~= rest.0);
            assert(escaped(r.0) == escape_char(esc.0) + escaped(rest.0));
            lemma_cat(t, pos, esc.1, r.1);
            assert(escaped(r.0) + seq!['"'] =~= t.subrange(pos, r.1));
        } else {
            lemma_string_at(t, pos + 1);
            let rest = string_at(t, pos + 1).unwrap();
            assert((seq![t[pos]] + rest.0).drop_first() =~= rest.0);
            assert(escape_char(t[pos]) =~= seq![t[pos]]);
            assert(escaped(r.0) == escape_char(t[pos]) + escaped(rest.0));
            lemma_cat(t, pos, pos + 1, r.1);
            lemma_one(t, pos);
            assert(escaped(r.0) + seq!['"'] =~= t.subrange(pos, r.1));
        }
    }
}

pub proof fn lemma_number_end(t: Seq<char>, pos: int)
    requires
        0 <= pos,
    ensures
        pos <= number_end(t, pos),
        pos < t.len() ==> number_end(t, pos) <= t.len(),
        pos < t.len() && is_number_char(t[pos]) ==> pos < number_end(t, pos),
    decreases t.len() - pos,
{
    if pos < t.len() && is_number_char(t[pos]) {
        lemma_number_end(t, pos + 1);
    }
}

/// A value read from compact text renders back to exactly that text.
pub proof fn lemma_value_at(t: Seq<char>, pos: int)
    ensures
        value_at(t, pos) matches Some(r) ==> pos < r.1 <= t.len() && render(r.0) == t.subrange(
            pos,
            r.1,
        ),
    decreases t.len() - pos, 2int,
{
    if let Some(r) = value_at(t, pos) {
        if matches_at(t, null_text(), pos) {
            assert(render(r.0) =~= t.subrange(pos, r.1));
        } else if matches_at(t, true_text(), pos) {
            assert(render(r.0) =~= t.subrange(pos, r.1));
        } else if matches_at(t, false_text(), pos) {
            assert(render(r.0) =~= t.subrange(pos, r.1));
        } else if t[pos] == '"' {
            lemma_string_at(t, pos + 1);
            lemma_cat(t, pos, pos + 1, r.1);
            lemma_one(t, pos);
            assert(render(r.0) =~= t.subrange(pos, r.1));
        } else if t[pos] == '[' {
            if pos + 1 < t.len() && t[pos + 1] == ']' {
                assert(render(r.0) =~= t.subrange(pos, r.1));
            } else {
                lemma_elements_at(t, pos + 1, Seq::empty());
                lemma_cat(t, pos, pos + 1, r.1);
                lemma_one(t, pos);
                let items = r.0->Array_0;
                assert(render(r.0) == seq!['['] + render_items(items, 0) + seq![']']);
                assert(render(r.0) =~= t.subrange(pos, r.1));
            }
        } else if t[pos] == '{' {
            if pos + 1 < t.len() && t[pos + 1] == '}' {
                assert(render(r.0) =~= t.subrange(pos, r.1));
            } else {
                lemma_members_at(t, pos + 1, Seq::empty());
                lemma_cat(t, pos, pos + 1, r.1);
                lemma_one(t, pos);
                let ms = r.0->Object_0;
                assert(render(r.0) == seq!['{'] + render_members(ms, 0) + seq!['}']);
                assert(render(r.0) =~= t.subrange(pos, r.1));
            }
        } else {
            lemma_number_end(t, pos);
        }
    }
}

pub proof fn lemma_elements_at(t: Seq<char>, pos: int, acc: Seq<JsonData>)
    ensures
        elements_at(t, pos, acc) matches Some(r) ==> pos < r.1 <= t.len() && (r.0 matches JsonData::Array(
            items,
        ) && items.len() > acc.len() && items.take(acc.len() as int) == acc && render_items(
            items,
            acc.len() as int,
        ) + seq![']'] == t.subrange(pos, r.1)),
    decreases t.len() - pos, 3int,
{
    if let Some(r) = elements_at(t, pos, acc) {
        let v = value_at(t, pos).unwrap();
        lemma_value_at(t, pos);
        let e = v.1;
        if t[e] == ',' {
            lemma_elements_at(t, e + 1, acc.push(v.0));
            let items = r.0->Array_0;
            assert(items.take(acc.len() as int + 1) == acc.push(v.0));
            assert(items.take(acc.len() as int) =~= acc) by {
                assert(items.take(acc.len() as int) =~= items.take(acc.len() as int + 1).take(
                    acc.len() as int,
                ));
            }
            assert(items[acc.len() as int] == items.take(acc.len() as int + 1)[acc.len() as int]);
            assert(render_items(items, acc.len() as int) == render(v.0) + seq![','] + render_items(
                items,
                acc.len() as int + 1,
            ));
            lemma_cat(t, pos, e, r.1);
            lemma_cat(t, e, e + 1, r.1);
            lemma_one(t, e);
            assert(render_items(items, acc.len() as int) + seq![']'] =~= t.subrange(pos, r.1));
        } else {
            let items = acc.push(v.0);
            assert(items.take(acc.len() as int) =~= acc);
            assert(render_items(items, acc.len() as int) == render(v.0));
            lemma_cat(t, pos, e, r.1);
            lemma_one(t, e);
            assert(render_items(items, acc.len() as int) + seq![']'] =~= t.subrange(pos, r.1));
        }
    }
}

pub proof fn lemma_members_at(t: Seq<char>, pos: int, acc: Seq<(Seq<char>, JsonData)>)
    ensures
        members_at(t, pos, acc) matches Some(r) ==> pos < r.1 <= t.len() && (r.0 matches JsonData::Object(
            ms,
        ) && ms.len() > acc.len() && ms.take(acc.len() as int) == acc && render_members(
            ms,
            acc.len() as int,
        ) + seq!['}'] == t.subrange(pos, r.1)),
    decreases t.len() - pos, 3int,
{
    if let Some(r) = members_at(t, pos, acc) {
        let k = string_at(t, pos + 1).unwrap();
        lemma_string_at(t, pos + 1);
        let e1 = k.1;
        let v = value_at(t, e1 + 1).unwrap();
        lemma_value_at(t, e1 + 1);
        let e2 = v.1;
        let m = (k.0, v.0);
        lemma_cat(t, pos, pos + 1, e1);
        lemma_one(t, pos);
        lemma_cat(t, pos, e1, e1 + 1);
        lemma_one(t, e1);
        lemma_cat(t, pos, e1 + 1, e2);
        assert(quoted(k.0) =~= t.subrange(pos, e1));
        assert(quoted(k.0) + seq![':'] + render(v.0) =~= t.subrange(pos, e2));
        if t[e2] == ',' {
            lemma_members_at(t, e2 + 1, acc.push(m));
            let ms = r.0->Object_0;
            assert(ms.take(acc.len() as int + 1) == acc.push(m));
            assert(ms.take(acc.len() as int) =~= acc) by {
                assert(ms.take(acc.len() as int) =~= ms.take(acc.len() as int + 1).take(
                    acc.len() as int,
                ));
            }
            assert(ms[acc.len() as int] == ms.take(acc.len() as int + 1)[acc.len() as int]);
            assert(render_members(ms, acc.len() as int) == quoted(k.0) + seq![':'] + render(v.0)
                + seq![','] + render_members(ms, acc.len() as int + 1));
            lemma_cat(t, pos, e2, r.1);
            lemma_cat(t, e2, e2 + 1, r.1);
            lemma_one(t, e2);
            assert(render_members(ms, acc.len() as int) + seq!['}'] =~= t.subrange(pos, r.1));
        } else {
            let ms = acc.push(m);
            assert(ms.take(acc.len() as int) =~= acc);
            assert(render_members(ms, acc.len() as int) == quoted(k.0) + seq![':'] + render(v.0));
            lemma_cat(t, pos, e2, r.1);
            lemma_one(t, e2);
            assert(render_members(ms, acc.len() as int) + seq!['}'] =~= t.subrange(pos, r.1));
        }
    }
}

/// The value that a whole compact text stands for renders back to that text.
pub proof fn lemma_read_json(t: Seq<char>)
    ensures
        read_json(t) matches Some(d) ==> render(d) == t,
{
    lemma_value_at(t, 0);
    if let Some(d) = read_json(t) {
        assert(t.subrange(0, t.len() as int) =~= t);
    }
}

/// Number text as serde_json writes it: a non-empty run of number
/// characters.
pub open spec fn number_text(n: Seq<char>) -> bool {
    n.len() > 0 && forall|i: int| 0 <= i < n.len() ==> is_number_char(#[trigger] n[i])
}

/// Every number in `d`, all the way down, is number text.
pub open spec fn numbers_well_formed(d: JsonData) -> bool
    decreases d,
{
    match d {
        JsonData::Number(n) => number_text(n),
        JsonData::Array(items) => forall|i: int|
            #![trigger items[i]]
            0 <= i < items.len() ==> numbers_well_formed(items[i]),
        JsonData::Object(ms) => forall|i: int|
            #![trigger ms[i]]
            0 <= i < ms.len() ==> numbers_well_formed(ms[i].1),
        _ => true,
    }
}

/// Position `e` of `t` ends a value: the text ends there or a character
/// follows that cannot continue a number.
pub open spec fn ends_value(t: Seq<char>, e: int) -> bool {
    e == t.len() || (0 <= e < t.len() && !is_number_char(t[e]))
}

proof fn lemma_at(t: Seq<char>, x: Seq<char>, pos: int, j: int)
    requires
        matches_at(t, x, pos),
        0 <= j < x.len(),
    ensures
        t[pos + j] == x[j],
{
    assert(t.subrange(pos, pos + x.len())[j] == t[pos + j]);
}

proof fn lemma_split(t: Seq<char>, a: Seq<char>, b: Seq<char>, pos: int)
    requires
        matches_at(t, a + b, pos),
    ensures
        matches_at(t, a, pos),
        matches_at(t, b, pos + a.len()),
{
    let w = t.subrange(pos, pos + a.len() + b.len());
    assert(w == a + b);
    assert(t.subrange(pos, pos + a.len()) =~= w.subrange(0, a.len() as int));
    assert(w.subrange(0, a.len() as int) =~= a);
    assert(t.subrange(pos + a.len(), pos + a.len() + b.len()) =~= w.subrange(
        a.len() as int,
        w.len() as int,
    ));
    assert(w.subrange(a.len() as int, w.len() as int) =~= b);
}

proof fn lemma_hex(n: int)
    requires
        0 <= n < 16,
    ensures
        hex_value(hex_char(n)) == Some(n),
{
    let digits = seq!['0', '1', '2', '3', '4', '5', '6', '7', '8', '9', 'a', 'b', 'c', 'd', 'e', 'f'];
    assert(hex_char(n) == digits[n]);
    if n < 10 {
        assert(digits[n] as int == '0' as int + n);
    } else {
        assert(digits[n] as int == 'a' as int + n - 10);
    }
}

/// An escape sequence that serde_json writes reads back as its character.
proof fn lemma_escape_read(t: Seq<char>, pos: int, c: char)
    requires
        matches_at(t, escape_char(c), pos),
        escape_char(c) != seq![c],
    ensures
        escape_at(t, pos) == Some((c, pos + escape_char(c).len())),
{
    let x = escape_char(c);
    lemma_at(t, x, pos, 0);
    lemma_at(t, x, pos, 1);
    if (c as u32) < 32 && c != '\u{8}' && c != '\u{c}' && c != '\n' && c != '\r' && c != '\t' {
        lemma_at(t, x, pos, 2);
        lemma_at(t, x, pos, 3);
        lemma_at(t, x, pos, 4);
        lemma_at(t, x, pos, 5);
        let h = (c as u32) / 16;
        let l = (c as u32) % 16;
        lemma_hex(h as int);
        lemma_hex(l as int);
        let code = (h as int) * 16 + (l as int);
        assert(code == c as int);
        assert((code as char) == c);
    }
}

/// A string literal's content, written as serde_json writes it and followed
/// by the closing quote, reads back as the string.
proof fn lemma_string_read(t: Seq<char>, pos: int, s: Seq<char>)
    requires
        matches_at(t, escaped(s) + seq!['"'], pos),
    ensures
        string_at(t, pos) == Some((s, pos + escaped(s).len() + 1)),
    decreases s.len(),
{
    if s.len() == 0 {
        lemma_at(t, escaped(s) + seq!['"'], pos, 0);
    } else {
        let c = s[0];
        let rest = s.drop_first();
        let x = escape_char(c);
        assert(escaped(s) + seq!['"'] =~= x + (escaped(rest) + seq!['"']));
        lemma_split(t, x, escaped(rest) + seq!['"'], pos);
        lemma_at(t, x, pos, 0);
        lemma_string_read(t, pos + x.len(), rest);
        assert(seq![c] + rest =~= s);
        if x != seq![c] {
            lemma_escape_read(t, pos, c);
        } else {
            assert(x.len() == 1);
        }
    }
}

/// A run of number characters that a non-number character (or the end)
/// follows ends where the number ends.
proof fn lemma_number_read(t: Seq<char>, pos: int, n: Seq<char>, j: int)
    requires
        number_text(n),
        matches_at(t, n, pos),
        ends_value(t, pos + n.len()),
        0 <= j <= n.len(),
    ensures
        number_end(t, pos + j) == pos + n.len(),
    decreases n.len() - j,
{
    if j < n.len() {
        lemma_at(t, n, pos, j);
        lemma_number_read(t, pos, n, j + 1);
    }
}

/// The compact text of a value is never empty and begins with a character
/// that tells which kind of value it is.
proof fn lemma_render_start(d: JsonData)
    requires
        numbers_well_formed(d),
    ensures
        render(d).len() > 0,
        d is Number ==> is_number_char(render(d)[0]),
        !(d is Number) ==> !is_number_char(render(d)[0]),
        render(d)[0] != ']' && render(d)[0] != '}' && render(d)[0] != ',',
        d is Str ==> render(d)[0] == '"',
{
}

/// A value whose compact text stands at `t[pos]`, and is followed by the
/// end or by a character that cannot continue a number, reads back as the
/// value.
pub proof fn lemma_value_read(t: Seq<char>, pos: int, d: JsonData)
    requires
        numbers_well_formed(d),
        matches_at(t, render(d), pos),
        ends_value(t, pos + render(d).len()),
    ensures
        value_at(t, pos) == Some((d, pos + render(d).len())),
    decreases d, 0int,
{
    let r = render(d);
    lemma_render_start(d);
    lemma_at(t, r, pos, 0);
    match d {
        JsonData::Null => {
            assert(r =~= null_text());
        },
        JsonData::Bool(b) => {
            assert(!matches_at(t, null_text(), pos)) by {
                if matches_at(t, null_text(), pos) {
                    lemma_at(t, null_text(), pos, 0);
                }
            }
            if b {
                assert(r =~= true_text());
            } else {
                assert(r =~= false_text());
                assert(!matches_at(t, true_text(), pos)) by {
                    if matches_at(t, true_text(), pos) {
                        lemma_at(t, true_text(), pos, 0);
                    }
                }
            }
        },
        JsonData::Number(n) => {
            assert(!matches_at(t, null_text(), pos)) by {
                if matches_at(t, null_text(), pos) {
                    lemma_at(t, null_text(), pos, 0);
                }
            }
            assert(!matches_at(t, true_text(), pos)) by {
                if matches_at(t, true_text(), pos) {
                    lemma_at(t, true_text(), pos, 0);
                }
            }
            assert(!matches_at(t, false_text(), pos)) by {
                if matches_at(t, false_text(), pos) {
                    lemma_at(t, false_text(), pos, 0);
                }
            }
            lemma_number_read(t, pos, n, 0);
            assert(t.subrange(pos, pos + n.len()) == n);
        },
        JsonData::Str(s) => {
            assert(!matches_at(t, null_text(), pos)) by {
                if matches_at(t, null_text(), pos) {
                    lemma_at(t, null_text(), pos, 0);
                }
            }
            assert(!matches_at(t, true_text(), pos)) by {
                if matches_at(t, true_text(), pos) {
                    lemma_at(t, true_text(), pos, 0);
                }
            }
            assert(!matches_at(t, false_text(), pos)) by {
                if matches_at(t, false_text(), pos) {
                    lemma_at(t, false_text(), pos, 0);
                }
            }
            assert(r =~= seq!['"'] + (escaped(s) + seq!['"']));
            lemma_split(t, seq!['"'], escaped(s) + seq!['"'], pos);
            lemma_string_read(t, pos + 1, s);
        },
        JsonData::Array(items) => {
            assert(!matches_at(t, null_text(), pos)) by {
                if matches_at(t, null_text(), pos) {
                    lemma_at(t, null_text(), pos, 0);
                }
            }
            assert(!matches_at(t, true_text(), pos)) by {
                if matches_at(t, true_text(), pos) {
                    lemma_at(t, true_text(), pos, 0);
                }
            }
            assert(!matches_at(t, false_text(), pos)) by {
                if matches_at(t, false_text(), pos) {
                    lemma_at(t, false_text(), pos, 0);
                }
            }
            if items.len() == 0 {
                assert(r =~= seq!['[', ']']);
                lemma_at(t, r, pos, 1);
                assert(items =~= Seq::<JsonData>::empty());
            } else {
                let body = render_items(items, 0) + seq![']'];
                assert(r =~= seq!['['] + body);
                lemma_split(t, seq!['['], body, pos);
                assert(numbers_well_formed(items[0]));
                lemma_render_start(items[0]);
                assert(render_items(items, 0) =~= render(items[0]) + (if items.len() == 1 {
                    Seq::<char>::empty()
                } else {
                    seq![','] + render_items(items, 1)
                }));
                lemma_at(t, body, pos + 1, 0);
                lemma_items_read(t, pos + 1, items, 0);
                assert(items.take(0) =~= Seq::<JsonData>::empty());
            }
        },
        JsonData::Object(ms) => {
            assert(!matches_at(t, null_text(), pos)) by {
                if matches_at(t, null_text(), pos) {
                    lemma_at(t, null_text(), pos, 0);
                }
            }
            assert(!matches_at(t, true_text(), pos)) by {
                if matches_at(t, true_text(), pos) {
                    lemma_at(t, true_text(), pos, 0);
                }
            }
            assert(!matches_at(t, false_text(), pos)) by {
                if matches_at(t, false_text(), pos) {
                    lemma_at(t, false_text(), pos, 0);
                }
            }
            if ms.len() == 0 {
                assert(r =~= seq!['{', '}']);
                lemma_at(t, r, pos, 1);
                assert(ms =~= Seq::<(Seq<char>, JsonData)>::empty());
            } else {
                let body = render_members(ms, 0) + seq!['}'];
                assert(r =~= seq!['{'] + body);
                lemma_split(t, seq!['{'], body, pos);
                lemma_at(t, body, pos + 1, 0);
                lemma_members_read(t, pos + 1, ms, 0);
                assert(ms.take(0) =~= Seq::<(Seq<char>, JsonData)>::empty());
            }
        },
    }
}

/// The elements `items[i..]` in compact text, followed by `]`, read back as
/// the array once the elements before `i` are known.
pub proof fn lemma_items_read(t: Seq<char>, pos: int, items: Seq<JsonData>, i: int)
    requires
        0 <= i < items.len(),
        forall|j: int| 0 <= j < items.len() ==> numbers_well_formed(#[trigger] items[j]),
        matches_at(t, render_items(items, i) + seq![']'], pos),
    ensures
        elements_at(t, pos, items.take(i)) == Some(
            (JsonData::Array(items), pos + render_items(items, i).len() + 1),
        ),
    decreases items, items.len() - i,
{
    let v = items[i];
    let rv = render(v);
    lemma_render_start(v);
    if i == items.len() - 1 {
        assert(render_items(items, i) == rv);
        lemma_split(t, rv, seq![']'], pos);
        lemma_at(t, seq![']'], pos + rv.len(), 0);
        lemma_value_read(t, pos, v);
        assert(items.take(i).push(v) =~= items);
    } else {
        let tail = render_items(items, i + 1) + seq![']'];
        assert(render_items(items, i) + seq![']'] =~= rv + (seq![','] + tail));
        lemma_split(t, rv, seq![','] + tail, pos);
        lemma_split(t, seq![','], tail, pos + rv.len());
        lemma_at(t, seq![','], pos + rv.len(), 0);
        lemma_value_read(t, pos, v);
        lemma_items_read(t, pos + rv.len() + 1, items, i + 1);
        assert(items.take(i).push(v) =~= items.take(i + 1));
    }
}

/// The members `ms[i..]` in compact text, followed by `}`, read back as the
/// object once the members before `i` are known.
pub proof fn lemma_members_read(t: Seq<char>, pos: int, ms: Seq<(Seq<char>, JsonData)>, i: int)
    requires
        0 <= i < ms.len(),
        forall|j: int| 0 <= j < ms.len() ==> numbers_well_formed(#[trigger] ms[j].1),
        matches_at(t, render_members(ms, i) + seq!['}'], pos),
    ensures
        members_at(t, pos, ms.take(i)) == Some(
            (JsonData::Object(ms), pos + render_members(ms, i).len() + 1),
        ),
    decreases ms, ms.len() - i,
{
    let key = ms[i].0;
    let v = ms[i].1;
    let rv = render(v);
    let q = quoted(key);
    lemma_render_start(v);
    let after = if i == ms.len() - 1 {
        seq!['}']
    } else {
        seq![','] + render_members(ms, i + 1) + seq!['}']
    };
    assert(render_members(ms, i) + seq!['}'] =~= seq!['"'] + ((escaped(key) + seq!['"']) + (
    seq![':'] + (rv + after))));
    lemma_split(t, seq!['"'], (escaped(key) + seq!['"']) + (seq![':'] + (rv + after)), pos);
    lemma_at(t, seq!['"'], pos, 0);
    lemma_split(t, escaped(key) + seq!['"'], seq![':'] + (rv + after), pos + 1);
    lemma_string_read(t, pos + 1, key);
    let e1 = pos + 1 + escaped(key).len() + 1;
    lemma_split(t, seq![':'], rv + after, e1);
    lemma_at(t, seq![':'], e1, 0);
    lemma_split(t, rv, after, e1 + 1);
    lemma_at(t, after, e1 + 1 + rv.len(), 0);
    lemma_value_read(t, e1 + 1, v);
    assert(q.len() == escaped(key).len() + 2);
    if i == ms.len() - 1 {
        assert(ms.take(i).push((key, v)) =~= ms);
    } else {
        let e2 = e1 + 1 + rv.len();
        assert(after =~= seq![','] + (render_members(ms, i + 1) + seq!['}']));
        lemma_split(t, seq![','], render_members(ms, i + 1) + seq!['}'], e2);
        lemma_members_read(t, e2 + 1, ms, i + 1);
        assert(ms.take(i).push((key, v)) =~= ms.take(i + 1));
        assert(ms[i] == (key, v));
    }
}

/// Reading the compact text of a value gives the value back, wherever its
/// numbers are number text.
pub proof fn lemma_read_render(d: JsonData)
    requires
        numbers_well_formed(d),
    ensures
        read_json(render(d)) == Some(d),
{
    let t = render(d);
    assert(t.subrange(0, t.len() as int) =~= t);
    lemma_value_read(t, 0, d);
}

proof fn lemma_number_run(t: Seq<char>, pos: int)
    requires
        0 <= pos,
    ensures
        forall|j: int| pos <= j < number_end(t, pos) ==> is_number_char(#[trigger] t[j]),
    decreases t.len() - pos,
{
    if pos < t.len() && is_number_char(t[pos]) {
        lemma_number_run(t, pos + 1);
    }
}

/// Every value read from compact text has number text for its numbers.
pub proof fn lemma_value_read_well_formed(t: Seq<char>, pos: int)
    ensures
        value_at(t, pos) matches Some(r) ==> numbers_well_formed(r.0),
    decreases t.len() - pos, 2int,
{
    if let Some(r) = value_at(t, pos) {
        if matches_at(t, null_text(), pos) || matches_at(t, true_text(), pos) || matches_at(
            t,
            false_text(),
            pos,
        ) || t[pos] == '"' {
        } else if t[pos] == '[' {
            if !(pos + 1 < t.len() && t[pos + 1] == ']') {
                lemma_elements_read_well_formed(t, pos + 1, Seq::empty());
            }
        } else if t[pos] == '{' {
            if !(pos + 1 < t.len() && t[pos + 1] == '}') {
                lemma_members_read_well_formed(t, pos + 1, Seq::empty());
            }
        } else {
            lemma_number_end(t, pos);
            lemma_number_run(t, pos);
            let n = t.subrange(pos, number_end(t, pos));
            assert forall|i: int| 0 <= i < n.len() implies is_number_char(#[trigger] n[i]) by {
                assert(n[i] == t[pos + i]);
            }
        }
    }
}

pub proof fn lemma_elements_read_well_formed(t: Seq<char>, pos: int, acc: Seq<JsonData>)
    requires
        forall|j: int| 0 <= j < acc.len() ==> numbers_well_formed(#[trigger] acc[j]),
    ensures
        elements_at(t, pos, acc) matches Some(r) ==> numbers_well_formed(r.0),
    decreases t.len() - pos, 3int,
{
    if let Some(r) = elements_at(t, pos, acc) {
        let v = value_at(t, pos).unwrap();
        lemma_value_read_well_formed(t, pos);
        let next = acc.push(v.0);
        assert forall|j: int| 0 <= j < next.len() implies numbers_well_formed(#[trigger] next[j]) by {
            if j < acc.len() {
                assert(next[j] == acc[j]);
            }
        }
        if t[v.1] == ',' {
            lemma_elements_read_well_formed(t, v.1 + 1, next);
        }
    }
}

pub proof fn lemma_members_read_well_formed(
    t: Seq<char>,
    pos: int,
    acc: Seq<(Seq<char>, JsonData)>,
)
    requires
        forall|j: int| 0 <= j < acc.len() ==> numbers_well_formed(#[trigger] acc[j].1),
    ensures
        members_at(t, pos, acc) matches Some(r) ==> numbers_well_formed(r.0),
    decreases t.len() - pos, 3int,
{
    if let Some(r) = members_at(t, pos, acc) {
        let k = string_at(t, pos + 1).unwrap();
        let v = value_at(t, k.1 + 1).unwrap();
        lemma_value_read_well_formed(t, k.1 + 1);
        let next = acc.push((k.0, v.0));
        assert forall|j: int| 0 <= j < next.len() implies numbers_well_formed(
            #[trigger] next[j].1,
        ) by {
            if j < acc.len() {
                assert(next[j] == acc[j]);
            }
        }
        if t[v.1] == ',' {
            lemma_members_read_well_formed(t, v.1 + 1, next);
        }
    }
}

/// Compact texts and values with number text correspond one to one: what is
/// read from a text has number text, and renders back to that text; and a
/// value with number text reads back from its rendering.
pub proof fn lemma_read_render_inverse(t: Seq<char>, d: JsonData)
    ensures
        read_json(t) == Some(d) ==> numbers_well_formed(d) && render(d) == t,
        numbers_well_formed(d) && render(d) == t ==> read_json(t) == Some(d),
{
    lemma_read_json(t);
    lemma_value_read_well_formed(t, 0);
    if numbers_well_formed(d) {
        lemma_read_render(d);
    }
}

/// A value's elements seen as plain data.
pub open spec fn views(v: Seq<JsonValue>) -> Seq<JsonData> {
    Seq::new(v.len(), |k: int| v[k]@)
}

/// Members seen as plain data.
pub open spec fn member_views(v: Seq<(String, JsonValue)>) -> Seq<(Seq<char>, JsonData)> {
    Seq::new(v.len(), |k: int| (v[k].0@, v[k].1@))
}

pub proof fn lemma_array_view(items: Vec<JsonValue>)
    ensures
        JsonValue::Array(items)@ == JsonData::Array(views(items@)),
{
    let d = JsonValue::Array(items)@;
    assert(d->Array_0 =~= views(items@));
}

pub proof fn lemma_object_view(members: Vec<(String, JsonValue)>)
    ensures
        JsonValue::Object(members)@ == JsonData::Object(member_views(members@)),
{
    let d = JsonValue::Object(members)@;
    assert(d->Object_0 =~= member_views(members@));
}

/// `r` with `acc` in front of the string it holds.
pub open spec fn after_prefix(acc: Seq<char>, r: Option<(Seq<char>, int)>) -> Option<
    (Seq<char>, int),
> {
    match r {
        Some(x) => Some((acc + x.0, x.1)),
        None => None,
    }
}

fn hex_digit_value(c: char) -> (r: Option<u32>)
    ensures
        r matches Some(v) ==> hex_value(c) == Some(v as int),
        r is None ==> hex_value(c) is None,
{
    if '0' <= c && c <= '9' {
        Some((c as u32) - ('0' as u32))
    } else if 'a' <= c && c <= 'f' {
        Some((c as u32) - ('a' as u32) + 10)
    } else {
        None
    }
}

fn read_escape(t: &Vec<char>, pos: usize) -> (r: Option<(char, usize)>)
    ensures
        r matches Some(x) ==> escape_at(t@, pos as int) == Some((x.0, x.1 as int)),
        r is None ==> escape_at(t@, pos as int) is None,
{
    if pos >= t.len() || t.len() - pos < 2 || t[pos] != '\\' {
        return None;
    }
    let e = t[pos + 1];
    if e == '"' {
        Some(('"', pos + 2))
    } else if e == '\\' {
        Some(('\\', pos + 2))
    } else if e == 'b' {
        Some(('\u{8}', pos + 2))
    } else if e == 'f' {
        Some(('\u{c}', pos + 2))
    } else if e == 'n' {
        Some(('\n', pos + 2))
    } else if e == 'r' {
        Some(('\r', pos + 2))
    } else if e == 't' {
        Some(('\t', pos + 2))
    } else if e == 'u' && t.len() - pos > 5 && t[pos + 2] == '0' && t[pos + 3] == '0' {
        match (hex_digit_value(t[pos + 4]), hex_digit_value(t[pos + 5])) {
            (Some(h), Some(l)) => {
                let code = h * 16 + l;
                if code < 0x20 && code != 8 && code != 9 && code != 10 && code != 12 && code
                    != 13 {
                    let b = code as u8;
                    let c = b as char;
                    assert(c == (code as int) as char);
                    Some((c, pos + 6))
                } else {
                    None
                }
            },
            _ => None,
        }
    } else {
        None
    }
}

fn read_string(t: &Vec<char>, pos: usize) -> (r: Option<(Vec<char>, usize)>)
    ensures
        r matches Some(x) ==> string_at(t@, pos as int) == Some((x.0@, x.1 as int)),
        r is None ==> string_at(t@, pos as int) is None,
{
    let mut acc: Vec<char> = Vec::new();
    let mut i = pos;
    assert(acc@ + Seq::<char>::empty() =~= acc@);
    assert(string_at(t@, pos as int) == after_prefix(acc@, string_at(t@, i as int))) by {
        if let Some(x) = string_at(t@, pos as int) {
            assert(acc@ + x.0 =~= x.0);
        }
    }
    loop
        invariant
            pos <= i,
            string_at(t@, pos as int) == after_prefix(acc@, string_at(t@, i as int)),
        decreases t.len() - i,
    {
        if i >= t.len() {
            return None;
        }
        let c = t[i];
        if c == '"' {
            assert(acc@ + Seq::<char>::empty() =~= acc@);
            return Some((acc, i + 1));
        }
        if c == '\\' {
            match read_escape(t, i) {
                None => {
                    return None;
                },
                Some((ch, next)) => {
                    proof {
                        lemma_escape_at(t@, i as int);
                        if let Some(x) = string_at(t@, next as int) {
                            assert(acc@ + (seq![ch] + x.0) =~= acc@.push(ch) + x.0);
                        }
                    }
                    acc.push(ch);
                    i = next;
                },
            }
        } else if (c as u32) < 32 {
            return None;
        } else {
            proof {
                if let Some(x) = string_at(t@, i + 1) {
                    assert(acc@ + (seq![c] + x.0) =~= acc@.push(c) + x.0);
                }
            }
            acc.push(c);
            i = i + 1;
        }
    }
}

fn is_number_character(c: char) -> (b: bool)
    ensures
        b == is_number_char(c),
{
    ('0' <= c && c <= '9') || c == '-' || c == '+' || c == '.' || c == 'e' || c == 'E'
}

/// Reads the value whose compact text starts at `t[pos]`.
fn read_value(t: &Vec<char>, pos: usize) -> (r: Option<(JsonValue, usize)>)
    ensures
        r matches Some(x) ==> value_at(t@, pos as int) == Some((x.0@, x.1 as int)),
        r is None ==> value_at(t@, pos as int) is None,
    decreases t.len() - pos, 1int,
{
    if pos >= t.len() {
        return None;
    }
    let null_chars = vec!['n', 'u', 'l', 'l'];
    let true_chars = vec!['t', 'r', 'u', 'e'];
    let false_chars = vec!['f', 'a', 'l', 's', 'e'];
    assert(null_chars@ =~= null_text());
    assert(true_chars@ =~= true_text());
    assert(false_chars@ =~= false_text());
    if match_at(t, &null_chars, pos) {
        return Some((JsonValue::Null, pos + 4));
    }
    if match_at(t, &true_chars, pos) {
        return Some((JsonValue::Bool(true), pos + 4));
    }
    if match_at(t, &false_chars, pos) {
        return Some((JsonValue::Bool(false), pos + 5));
    }
    let c = t[pos];
    if c == '"' {
        match read_string(t, pos + 1) {
            Some((s, e)) => Some((JsonValue::Str(string_from(&s)), e)),
            None => None,
        }
    } else if c == '[' {
        if pos + 1 < t.len() && t[pos + 1] == ']' {
            let empty: Vec<JsonValue> = Vec::new();
            let ghost ev = empty;
            let v = JsonValue::Array(empty);
            proof {
                lemma_array_view(ev);
                assert(views(ev@) =~= Seq::<JsonData>::empty());
            }
            Some((v, pos + 2))
        } else {
            read_elements(t, pos + 1)
        }
    } else if c == '{' {
        if pos + 1 < t.len() && t[pos + 1] == '}' {
            let empty: Vec<(String, JsonValue)> = Vec::new();
            let ghost ev = empty;
            let v = JsonValue::Object(empty);
            proof {
                lemma_object_view(ev);
                assert(member_views(ev@) =~= Seq::<(Seq<char>, JsonData)>::empty());
            }
            Some((v, pos + 2))
        } else {
            read_members(t, pos + 1)
        }
    } else if is_number_character(c) {
        let mut e = pos;
        while e < t.len() && is_number_character(t[e])
            invariant
                pos <= e <= t.len(),
                number_end(t@, pos as int) == number_end(t@, e as int),
            decreases t.len() - e,
        {
            e = e + 1;
        }
        let mut n: Vec<char> = Vec::new();
        let mut k = pos;
        while k < e
            invariant
                pos <= k <= e <= t.len(),
                n@ == t@.subrange(pos as int, k as int),
            decreases e - k,
        {
            n.push(t[k]);
            assert(n@ =~= t@.subrange(pos as int, k + 1));
            k = k + 1;
        }
        Some((JsonValue::Number(string_from(&n)), e))
    } else {
        None
    }
}

/// Reads the elements of the array whose first element starts at `t[pos]`.
fn read_elements(t: &Vec<char>, pos: usize) -> (r: Option<(JsonValue, usize)>)
    requires
        pos <= t.len(),
    ensures
        r matches Some(x) ==> elements_at(t@, pos as int, Seq::empty()) == Some(
            (x.0@, x.1 as int),
        ),
        r is None ==> elements_at(t@, pos as int, Seq::empty()) is None,
    decreases t.len() - pos, 2int,
{
    let mut items: Vec<JsonValue> = Vec::new();
    let mut i = pos;
    assert(views(items@) =~= Seq::<JsonData>::empty());
    loop
        invariant
            pos <= i <= t.len(),
            elements_at(t@, pos as int, Seq::empty()) == elements_at(
                t@,
                i as int,
                views(items@),
            ),
        decreases t.len() - i,
    {
        match read_value(t, i) {
            None => {
                return None;
            },
            Some((v, e)) => {
                if e <= i || e >= t.len() {
                    return None;
                }
                let c = t[e];
                let ghost before = views(items@);
                let ghost vd = v@;
                items.push(v);
                assert(views(items@) =~= before.push(vd));
                if c == ',' {
                    i = e + 1;
                } else if c == ']' {
                    let ghost iv = items;
                    let r = JsonValue::Array(items);
                    proof {
                        lemma_array_view(iv);
                    }
                    return Some((r, e + 1));
                } else {
                    return None;
                }
            },
        }
    }
}

/// Reads the members of the object whose first member starts at `t[pos]`.
fn read_members(t: &Vec<char>, pos: usize) -> (r: Option<(JsonValue, usize)>)
    requires
        pos <= t.len(),
    ensures
        r matches Some(x) ==> members_at(t@, pos as int, Seq::empty()) == Some(
            (x.0@, x.1 as int),
        ),
        r is None ==> members_at(t@, pos as int, Seq::empty()) is None,
    decreases t.len() - pos, 2int,
{
    let mut members: Vec<(String, JsonValue)> = Vec::new();
    let mut i = pos;
    assert(member_views(members@) =~= Seq::<(Seq<char>, JsonData)>::empty());
    loop
        invariant
            pos <= i <= t.len(),
            members_at(t@, pos as int, Seq::empty()) == members_at(
                t@,
                i as int,
                member_views(members@),
            ),
        decreases t.len() - i,
    {
        if i >= t.len() || t[i] != '"' {
            return None;
        }
        let (key, e1) = match read_string(t, i + 1) {
            None => {
                return None;
            },
            Some(x) => x,
        };
        if e1 <= i || e1 >= t.len() || t[e1] != ':' {
            return None;
        }
        match read_value(t, e1 + 1) {
            None => {
                return None;
            },
            Some((v, e2)) => {
                if e2 <= e1 || e2 >= t.len() {
                    return None;
                }
                let c = t[e2];
                let ghost before = member_views(members@);
                let ghost md = (key@, v@);
                members.push((string_from(&key), v));
                assert(member_views(members@) =~= before.push(md));
                if c == ',' {
                    i = e2 + 1;
                } else if c == '}' {
                    let ghost mv = members;
                    let r = JsonValue::Object(members);
                    proof {
                        lemma_object_view(mv);
                    }
                    return Some((r, e2 + 1));
                } else {
                    return None;
                }
            },
        }
    }
}

/// Reads a whole compact JSON text.
pub fn read_json_text(text: &str) -> (r: Option<JsonValue>)
    ensures
        r matches Some(v) ==> read_json(text@) == Some(v@),
        r is None ==> read_json(text@) is None,
{
    let t = chars_of(text);
    match read_value(&t, 0) {
        Some((v, e)) => if e == t.len() {
            Some(v)
        } else {
            None
        },
        None => None,
    }
}

pub proof fn lemma_escaped_push(a: Seq<char>, c: char)
    ensures
        escaped(a.push(c)) == escaped(a) + escape_char(c),
    decreases a.len(),
{
    if a.len() == 0 {
        assert(a.push(c).drop_first() =~= Seq::<char>::empty());
        assert(escaped(a.push(c)) == escape_char(c) + escaped(a.push(c).drop_first()));
        assert(escaped(Seq::<char>::empty()) == Seq::<char>::empty());
        assert(escaped(a.push(c)) =~= escaped(a) + escape_char(c));
    } else {
        lemma_escaped_push(a.drop_first(), c);
        assert(a.push(c).drop_first() =~= a.drop_first().push(c));
        assert(a.push(c)[0] == a[0]);
        assert(escaped(a.push(c)) == escape_char(a[0]) + escaped(a.drop_first().push(c)));
        assert(escaped(a) == escape_char(a[0]) + escaped(a.drop_first()));
        assert(escaped(a.push(c)) =~= escaped(a) + escape_char(c));
    }
}

/// Appends the string literal of `s` to `out`.
fn write_quoted(s: &String, out: &mut Vec<char>)
    ensures
        final(out)@ == old(out)@ + quoted(s@),
{
    let c = chars_of(s.as_str());
    let digits = vec![
        '0', '1', '2', '3', '4', '5', '6', '7', '8', '9', 'a', 'b', 'c', 'd', 'e', 'f',
    ];
    assert(digits@ =~= seq![
        '0', '1', '2', '3', '4', '5', '6', '7', '8', '9', 'a', 'b', 'c', 'd', 'e', 'f'
    ]);
    let ghost start = out@;
    out.push('"');
    for i in 0..c.len()
        invariant
            digits@ == seq!['0', '1', '2', '3', '4', '5', '6', '7', '8', '9', 'a', 'b', 'c', 'd', 'e', 'f'],
            out@ == start + seq!['"'] + escaped(c@.take(i as int)),
    {
        let ch = c[i];
        let ghost before = out@;
        if ch == '"' {
            out.push('\\');
            out.push('"');
        } else if ch == '\\' {
            out.push('\\');
            out.push('\\');
        } else if ch == '\u{8}' {
            out.push('\\');
            out.push('b');
        } else if ch == '\u{c}' {
            out.push('\\');
            out.push('f');
        } else if ch == '\n' {
            out.push('\\');
            out.push('n');
        } else if ch == '\r' {
            out.push('\\');
            out.push('r');
        } else if ch == '\t' {
            out.push('\\');
            out.push('t');
        } else if (ch as u32) < 32 {
            let code = ch as u32;
            assert(code < 32);
            out.push('\\');
            out.push('u');
            out.push('0');
            out.push('0');
            out.push(digits[(code / 16) as usize]);
            out.push(digits[(code % 16) as usize]);
        } else {
            out.push(ch);
        }
        proof {
            assert(out@ =~= before + escape_char(ch));
            lemma_escaped_push(c@.take(i as int), ch);
            assert(c@.take(i + 1) =~= c@.take(i as int).push(ch));
        }
    }
    out.push('"');
    assert(c@.take(c.len() as int) =~= c@);
    assert(out@ =~= start + quoted(s@));
}

/// Appends the compact text of `v` to `out`.
pub fn write_value(v: &JsonValue, out: &mut Vec<char>)
    ensures
        final(out)@ == old(out)@ + render(v@),
    decreases v, 0int,
{
    let ghost start = out@;
    match v {
        JsonValue::Null => {
            out.push('n');
            out.push('u');
            out.push('l');
            out.push('l');
            assert(out@ =~= start + render(v@));
        },
        JsonValue::Bool(b) => {
            if *b {
                out.push('t');
                out.push('r');
                out.push('u');
                out.push('e');
            } else {
                out.push('f');
                out.push('a');
                out.push('l');
                out.push('s');
                out.push('e');
            }
            assert(out@ =~= start + render(v@));
        },
        JsonValue::Number(n) => {
            extend_chars(out, &chars_of(n.as_str()));
        },
        JsonValue::Str(s) => {
            write_quoted(s, out);
        },
        JsonValue::Array(items) => {
            proof {
                lemma_array_view(*items);
            }
            out.push('[');
            write_items(items, 0, out);
            out.push(']');
            assert(out@ =~= start + render(v@));
        },
        JsonValue::Object(members) => {
            proof {
                lemma_object_view(*members);
            }
            out.push('{');
            write_members(members, 0, out);
            out.push('}');
            assert(out@ =~= start + render(v@));
        },
    }
}

fn write_items(items: &Vec<JsonValue>, i: usize, out: &mut Vec<char>)
    ensures
        final(out)@ == old(out)@ + render_items(views(items@), i as int),
    decreases items, items.len() - i,
{
    if i >= items.len() {
        assert(old(out)@ + render_items(views(items@), i as int) =~= old(out)@);
        return;
    }
    let ghost start = out@;
    write_value(&items[i], out);
    if i + 1 < items.len() {
        out.push(',');
        write_items(items, i + 1, out);
    }
    assert(out@ =~= start + render_items(views(items@), i as int));
}

fn write_members(members: &Vec<(String, JsonValue)>, i: usize, out: &mut Vec<char>)
    ensures
        final(out)@ == old(out)@ + render_members(member_views(members@), i as int),
    decreases members, members.len() - i,
{
    if i >= members.len() {
        assert(old(out)@ + render_members(member_views(members@), i as int) =~= old(out)@);
        return;
    }
    let ghost start = out@;
    write_quoted(&members[i].0, out);
    out.push(':');
    write_value(&members[i].1, out);
    if i + 1 < members.len() {
        out.push(',');
        write_members(members, i + 1, out);
    }
    assert(out@ =~= start + render_members(member_views(members@), i as int));
}

/// The compact text of a value.
pub fn render_text(v: &JsonValue) -> (r: String)
    ensures
        r@ == render(v@),
{
    let mut out: Vec<char> = Vec::new();
    write_value(v, &mut out);
    assert(out@ =~= render(v@));
    string_from(&out)
}

/// A textual result seen as plain text.
pub open spec fn result_text(r: Result<String, String>) -> Result<Seq<char>, Seq<char>> {
    match r {
        Ok(c) => Ok(c@),
        Err(e) => Err(e@),
    }
}

/// An optional text seen as plain text.
pub open spec fn option_text(r: Option<String>) -> Option<Seq<char>> {
    match r {
        Some(p) => Some(p@),
        None => None,
    }
}

/// What serde_json makes of a text: the compact text that `Value`'s
/// `Display` writes for the value it reads, or the message of the error that
/// it reports.
pub uninterp spec fn serde_compact(text: Seq<char>) -> Result<Seq<char>, Seq<char>>;

/// Calls `serde_json::from_str::<serde_json::Value>` and writes the value
/// with `Value`'s `Display` (`to_string`), or the error with its `Display`.
/// The contract claims that the result is a function of the text, named
/// `serde_compact`, and that the compact text written for a value is one
/// that `read_json` reads: `Display` without `{:#}` writes no whitespace,
/// writes numbers as runs of digits, `-`, `.`, `e` and `+` (non-finite
/// floats cannot occur in a `Value`), and escapes in strings exactly `"`,
/// `\`, the short forms `\b \t \n \f \r`, and every other character
/// below U+0020 as `\u00` with two lowercase hex digits (serde_json's
/// `ESCAPE` table and `write_char_escape`).
#[verifier::external_body]
fn serde_compact_text(text: &str) -> (r: Result<String, String>)
    ensures
        result_text(r) == serde_compact(text@),
        r matches Ok(c) ==> read_json(c@) is Some,
{
    match serde_json::from_str::<serde_json::Value>(text) {
        Ok(v) => Ok(v.to_string()),
        Err(e) => Err(e.to_string()),
    }
}

/// What serde_json makes of a text with `to_string_pretty`: the pretty text
/// of the value it reads, or `None` where it reads none.
pub uninterp spec fn serde_pretty(text: Seq<char>) -> Option<Seq<char>>;

/// Calls `serde_json::from_str::<serde_json::Value>` and, on success,
/// `serde_json::to_string_pretty`. The contract claims only that the result
/// is a function of the text, named `serde_pretty`.
#[verifier::external_body]
pub(crate) fn serde_pretty_text(text: &str) -> (r: Option<String>)
    ensures
        option_text(r) == serde_pretty(text@),
{
    match serde_json::from_str::<serde_json::Value>(text) {
        Ok(v) => serde_json::to_string_pretty(&v).ok(),
        Err(_) => None,
    }
}

/// The message given where serde_json's compact text of a value cannot be
/// read back.
pub open spec fn unreadable_message() -> Seq<char> {
    "unreadable JSON text"@
}

/// The value a response text holds: the reading of serde_json's compact text
/// of it, or serde_json's error message.
pub open spec fn json_reading(text: Seq<char>) -> Result<JsonData, Seq<char>> {
    match serde_compact(text) {
        Err(e) => Err(e),
        Ok(c) => match read_json(c) {
            Some(d) => Ok(d),
            None => Err(unreadable_message()),
        },
    }
}

/// Reads a JSON text with serde_json into the library's model.
pub fn parse_json(text: &str) -> (r: Result<JsonValue, String>)
    ensures
        r matches Ok(v) ==> json_reading(text@) == Ok::<JsonData, Seq<char>>(v@),
        r matches Err(e) ==> json_reading(text@) == Err::<JsonData, Seq<char>>(e@),
        r is Ok <==> serde_compact(text@) is Ok,
{
    match serde_compact_text(text) {
        Err(e) => Err(e),
        Ok(c) => match read_json_text(c.as_str()) {
            Some(v) => Ok(v),
            None => Err("unreadable JSON text".to_owned()),
        },
    }
}

} // verus!

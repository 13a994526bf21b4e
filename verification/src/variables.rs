//! Runtime variables, `{{name}}` substitution and JSON extraction rules.

use vstd::prelude::*;

use crate::auth::{is_secret_name, mask_secret, masked, secret_name};
use crate::json::{
    json_reading, lemma_array_view, serde_compact, lemma_object_view, member_views, parse_json, render,
    render_text, views, JsonData, JsonValue,
};
use crate::order::{insert_sorted, same_chars, sorted_unique};
use crate::text::{
    char_rows, chars_of, contains, decimal, digit_char, extend_chars, lemma_decimal_digits,
    lemma_trim_fixed, extend_str, find, find_char, find_char_from, find_from,
    lemma_find_char_from, lemma_find_from, lines, matches_at, slice_chars, split_lines, split_once,
    starts_with, string_from, string_rows, strings_from, trim, trimmed,
};

verus! {

#[derive(Clone, Debug, PartialEq, Eq)]
pub struct RuntimeVariable {
    pub key: String,
    pub value: String,
    pub secret: bool,
}

/// A runtime variable seen as plain text.
pub struct RuntimeVariableView {
    pub key: Seq<char>,
    pub value: Seq<char>,
    pub secret: bool,
}

impl View for RuntimeVariable {
    type V = RuntimeVariableView;

    open spec fn view(&self) -> RuntimeVariableView {
        RuntimeVariableView { key: self.key@, value: self.value@, secret: self.secret }
    }
}

/// The runtime variables of a session, by name.
pub struct VariableStore {
    entries: Vec<(String, RuntimeVariable)>,
}

impl VariableStore {
    /// No two entries share a name.
    #[verifier::type_invariant]
    spec fn distinct_names(self) -> bool {
        forall|i: int, j: int|
            0 <= i < j < self.entries@.len() ==> self.entries@[i].0@ != self.entries@[j].0@
    }

    /// Index of the entry named `k`.
    closed spec fn index_of(self, k: Seq<char>) -> int {
        choose|i: int| 0 <= i < self.entries@.len() && self.entries@[i].0@ == k
    }

    closed spec fn has_name(self, k: Seq<char>) -> bool {
        exists|i: int| 0 <= i < self.entries@.len() && self.entries@[i].0@ == k
    }

    /// The variables, as a map from name to variable.
    pub closed spec fn as_map(self) -> Map<Seq<char>, RuntimeVariableView> {
        Map::new(|k: Seq<char>| self.has_name(k), |k: Seq<char>| self.entries@[self.index_of(k)].1@)
    }

    proof fn lemma_entry(self, i: int)
        requires
            self.distinct_names(),
            0 <= i < self.entries@.len(),
        ensures
            self.as_map().contains_key(self.entries@[i].0@),
            self.as_map()[self.entries@[i].0@] == self.entries@[i].1@,
    {
        let k = self.entries@[i].0@;
        assert(self.has_name(k));
        let j = self.index_of(k);
        assert(j == i);
    }

    pub fn new() -> (s: Self)
        ensures
            s@ == Map::<Seq<char>, RuntimeVariableView>::empty(),
    {
        let s = VariableStore { entries: Vec::new() };
        assert(s.as_map() =~= Map::<Seq<char>, RuntimeVariableView>::empty());
        s
    }

    /// Position of the entry named `key`.
    fn position(&self, key: &String) -> (r: Option<usize>)
        ensures
            r matches Some(i) ==> i < self.entries@.len() && self.entries@[i as int].0@ == key@,
            r is None ==> !self.has_name(key@),
    {
        let mut i: usize = 0;
        while i < self.entries.len()
            invariant
                i <= self.entries@.len(),
                forall|j: int| 0 <= j < i ==> self.entries@[j].0@ != key@,
            decreases self.entries.len() - i,
        {
            if self.entries[i].0 == *key {
                return Some(i);
            }
            i = i + 1;
        }
        None
    }

    pub fn get(&self, key: &str) -> (r: Option<&RuntimeVariable>)
        ensures
            r matches Some(v) ==> self@.contains_key(key@) && self@[key@] == v@,
            r is None ==> !self@.contains_key(key@),
    {
        proof {
            use_type_invariant(self);
        }
        let k = key.to_owned();
        match self.position(&k) {
            Some(i) => {
                proof {
                    self.lemma_entry(i as int);
                }
                Some(&self.entries[i].1)
            },
            None => None,
        }
    }

    pub fn insert(&mut self, key: String, value: RuntimeVariable)
        ensures
            final(self)@ == old(self)@.insert(key@, value@),
    {
        proof {
            use_type_invariant(&*self);
        }
        let ghost old_store = *self;
        let ghost kv = key@;
        let ghost vv = value@;
        let ghost kvpair = (key, value);
        match self.position(&key) {
            Some(i) => {
                let mut entries: Vec<(String, RuntimeVariable)> = Vec::new();
                std::mem::swap(&mut entries, &mut self.entries);
                entries.remove(i);
                entries.insert(i, (key, value));
                assert(entries@ =~= old_store.entries@.update(i as int, kvpair));
                assert forall|a: int, b: int| 0 <= a < b < entries@.len() implies entries@[a].0@
                    != entries@[b].0@ by {
                    assert(old_store.entries@[a].0@ != old_store.entries@[b].0@);
                }
                std::mem::swap(&mut entries, &mut self.entries);
                proof {
                    let new_store = *self;
                    assert forall|k: Seq<char>| #[trigger] new_store.has_name(k) == old_store.has_name(k) by {
                        if new_store.has_name(k) {
                            let j = choose|j: int| 0 <= j < new_store.entries@.len() && new_store.entries@[j].0@ == k;
                            assert(old_store.entries@[j].0@ == k);
                        }
                        if old_store.has_name(k) {
                            let j = choose|j: int| 0 <= j < old_store.entries@.len() && old_store.entries@[j].0@ == k;
                            assert(new_store.entries@[j].0@ == k);
                        }
                    }
                    assert forall|k: Seq<char>| new_store.has_name(k) implies #[trigger] new_store.as_map()[k]
                        == old_store.as_map().insert(kv, vv)[k] by {
                        let j = new_store.index_of(k);
                        new_store.lemma_entry(j);
                        if k != kv {
                            old_store.lemma_entry(j);
                        } else {
                            new_store.lemma_entry(i as int);
                        }
                    }
                    assert(new_store.as_map() =~= old_store.as_map().insert(kv, vv));
                }
            },
            None => {
                let mut entries: Vec<(String, RuntimeVariable)> = Vec::new();
                std::mem::swap(&mut entries, &mut self.entries);
                entries.push((key, value));
                assert(entries@ =~= old_store.entries@.push(kvpair));
                std::mem::swap(&mut entries, &mut self.entries);
                proof {
                    let new_store = *self;
                    let n = new_store.entries@.len();
                    assert forall|k: Seq<char>| #[trigger] new_store.has_name(k) == (old_store.has_name(k) || k == kv) by {
                        if new_store.has_name(k) {
                            let j = choose|j: int| 0 <= j < new_store.entries@.len() && new_store.entries@[j].0@ == k;
                            if j < n - 1 {
                                assert(old_store.entries@[j].0@ == k);
                            }
                        }
                        if old_store.has_name(k) {
                            let j = choose|j: int| 0 <= j < old_store.entries@.len() && old_store.entries@[j].0@ == k;
                            assert(new_store.entries@[j].0@ == k);
                        }
                        if k == kv {
                            assert(new_store.entries@[n - 1].0@ == k);
                        }
                    }
                    assert forall|k: Seq<char>| new_store.has_name(k) implies #[trigger] new_store.as_map()[k]
                        == old_store.as_map().insert(kv, vv)[k] by {
                        let j = new_store.index_of(k);
                        new_store.lemma_entry(j);
                        if k != kv {
                            old_store.lemma_entry(j);
                        } else {
                            new_store.lemma_entry(n - 1);
                        }
                    }
                    assert(new_store.as_map() =~= old_store.as_map().insert(kv, vv));
                }
            },
        }
    }
}
impl VariableStore {
    /// The variables one by one, each with its name, in no particular order.
    pub fn entries(&self) -> (r: &Vec<(String, RuntimeVariable)>)
        ensures
            forall|i: int, j: int| 0 <= i < j < r@.len() ==> r@[i].0@ != r@[j].0@,
            forall|i: int|
                0 <= i < r@.len() ==> #[trigger] self@.contains_key(r@[i].0@) && self@[r@[i].0@]
                    == r@[i].1@,
            forall|k: Seq<char>|
                #[trigger] self@.contains_key(k) ==> exists|i: int| 0 <= i < r@.len() && r@[i].0@ == k,
    {
        proof {
            use_type_invariant(self);
            assert forall|i: int| 0 <= i < self.entries@.len() implies #[trigger] self@.contains_key(
                self.entries@[i].0@,
            ) && self@[self.entries@[i].0@] == self.entries@[i].1@ by {
                self.lemma_entry(i);
            }
        }
        &self.entries
    }
}

impl View for VariableStore {
    type V = Map<Seq<char>, RuntimeVariableView>;

    open spec fn view(&self) -> Map<Seq<char>, RuntimeVariableView> {
        self.as_map()
    }
}

#[derive(Clone, Debug, PartialEq, Eq)]
pub struct SubstitutionResult {
    pub value: String,
    pub unresolved: Vec<String>,
}

pub open spec fn open_marker() -> Seq<char> {
    seq!['{', '{']
}

pub open spec fn close_marker() -> Seq<char> {
    seq!['}', '}']
}

/// What stands in place of a resolved placeholder.
pub open spec fn replacement(v: RuntimeVariableView, mask_secrets: bool) -> Seq<char> {
    if mask_secrets && v.secret {
        masked(v.value)
    } else {
        v.value
    }
}

/// Substitution of `{{name}}` placeholders in `s[pos..]`: the text, and the
/// trimmed names that no variable resolves, in the order they occur. A
/// resolved placeholder gives the variable's value (masked where asked for
/// and the variable is secret); an unresolved one stays as `{{name}}` with
/// the trimmed name; a `{{` without a later `}}` and all other text stay as
/// they are.
pub open spec fn substitution_from(
    s: Seq<char>,
    vars: Map<Seq<char>, RuntimeVariableView>,
    mask_secrets: bool,
    pos: int,
) -> (Seq<char>, Seq<Seq<char>>)
    decreases s.len() - pos,
{
    if pos < 0 || pos > s.len() {
        (Seq::empty(), Seq::empty())
    } else {
        proof {
            lemma_find_from(s, open_marker(), pos);
        }
        match find_from(s, open_marker(), pos) {
            None => (s.subrange(pos, s.len() as int), Seq::empty()),
            Some(start) => {
                proof {
                    lemma_find_from(s, close_marker(), start + 2);
                }
                match find_from(s, close_marker(), start + 2) {
                    None => (s.subrange(pos, s.len() as int), Seq::empty()),
                    Some(end) => {
                        if end < start + 2 {
                            (Seq::empty(), Seq::empty())
                        } else {
                            let key = trim(s.subrange(start + 2, end));
                            let rest = substitution_from(s, vars, mask_secrets, end + 2);
                            if vars.contains_key(key) {
                                (
                                    s.subrange(pos, start) + replacement(vars[key], mask_secrets)
                                        + rest.0,
                                    rest.1,
                                )
                            } else {
                                (
                                    s.subrange(pos, start) + open_marker() + key + close_marker()
                                        + rest.0,
                                    seq![key] + rest.1,
                                )
                            }
                        }
                    },
                }
            },
        }
    }
}

pub open spec fn substitution(
    s: Seq<char>,
    vars: Map<Seq<char>, RuntimeVariableView>,
    mask_secrets: bool,
) -> (Seq<char>, Seq<Seq<char>>) {
    substitution_from(s, vars, mask_secrets, 0)
}

/// Replaces the `{{name}}` placeholders of `input` by the values of the
/// runtime variables, and lists the names that none resolves, sorted and
/// without repetition.
pub fn substitute(input: &str, variables: &VariableStore, mask_secrets: bool) -> (r:
    SubstitutionResult)
    ensures
        r.value@ == substitution(input@, variables@, mask_secrets).0,
        sorted_unique(string_rows(r.unresolved@)),
        string_rows(r.unresolved@).to_set() == substitution(
            input@,
            variables@,
            mask_secrets,
        ).1.to_set(),
{
    let s = chars_of(input);
    let open = vec!['{', '{'];
    let close = vec!['}', '}'];
    assert(open@ =~= open_marker());
    assert(close@ =~= close_marker());
    let ghost vars = variables@;
    let ghost total = substitution(s@, vars, mask_secrets);
    let mut out: Vec<char> = Vec::new();
    let mut keys: Vec<Vec<char>> = Vec::new();
    let ghost mut raw: Seq<Seq<char>> = Seq::empty();
    let mut pos: usize = 0;
    let mut finished = false;
    assert(char_rows(keys@).to_set() =~= raw.to_set());
    while !finished
        invariant
            pos <= s@.len(),
            s@ == input@,
            vars == variables@,
            total == substitution(s@, vars, mask_secrets),
            sorted_unique(char_rows(keys@)),
            char_rows(keys@).to_set() == raw.to_set(),
            open@ == open_marker(),
            close@ == close_marker(),
            !finished ==> total == (
                out@ + substitution_from(s@, vars, mask_secrets, pos as int).0,
                raw + substitution_from(s@, vars, mask_secrets, pos as int).1,
            ),
            finished ==> total == (out@, raw),
        decreases s@.len() - pos + (if finished { 0int } else { 1int }),
    {
        let ghost here = substitution_from(s@, vars, mask_secrets, pos as int);
        proof {
            lemma_find_from(s@, open_marker(), pos as int);
        }
        let tail = slice_chars(&s, pos, s.len());
        match find(&s, &open, pos) {
            None => {
                extend_chars(&mut out, &tail);
                assert(raw + Seq::<Seq<char>>::empty() =~= raw);
                finished = true;
            },
            Some(start) => {
                proof {
                    lemma_find_from(s@, close_marker(), start + 2);
                }
                match find(&s, &close, start + 2) {
                    None => {
                        extend_chars(&mut out, &tail);
                        assert(raw + Seq::<Seq<char>>::empty() =~= raw);
                        finished = true;
                    },
                    Some(end) => {
                        let head = slice_chars(&s, pos, start);
                        extend_chars(&mut out, &head);
                        let (a, b) = crate::text::trim_bounds(&s, start + 2, end);
                        let key = slice_chars(&s, a, b);
                        let key_text = string_from(&key);
                        let ghost rest = substitution_from(s@, vars, mask_secrets, end + 2);
                        match variables.get(key_text.as_str()) {
                            Some(v) => {
                                if mask_secrets && v.secret {
                                    let m = mask_secret(v.value.as_str());
                                    extend_chars(&mut out, &chars_of(m.as_str()));
                                } else {
                                    extend_chars(&mut out, &chars_of(v.value.as_str()));
                                }
                                assert(total.0 =~= out@ + rest.0);
                            },
                            None => {
                                extend_chars(&mut out, &open);
                                extend_chars(&mut out, &key);
                                extend_chars(&mut out, &close);
                                assert(total.0 =~= out@ + rest.0);
                                let ghost kv = key@;
                                insert_sorted(&mut keys, key);
                                proof {
                                    assert(raw + (seq![kv] + rest.1) =~= raw.push(kv) + rest.1);
                                    raw.lemma_push_to_set_commute(kv);
                                    raw = raw.push(kv);
                                }
                            },
                        }
                        pos = end + 2;
                    },
                }
            },
        }
    }
    SubstitutionResult { value: string_from(&out), unresolved: strings_from(&keys) }
}

#[derive(Clone, Debug, PartialEq, Eq)]
pub struct ExtractionRule {
    pub variable_name: String,
    pub json_path: String,
    pub secret: bool,
}

/// An extraction rule seen as plain text.
pub struct ExtractionRuleView {
    pub variable_name: Seq<char>,
    pub json_path: Seq<char>,
    pub secret: bool,
}

impl View for ExtractionRule {
    type V = ExtractionRuleView;

    open spec fn view(&self) -> ExtractionRuleView {
        ExtractionRuleView {
            variable_name: self.variable_name@,
            json_path: self.json_path@,
            secret: self.secret,
        }
    }
}

/// The rule that one line of the rules text gives: `name = path`, both
/// trimmed and non-empty; blank lines and lines starting with `#` give none.
/// A rule is secret where its name looks like a secret.
pub open spec fn rule_of_line(line: Seq<char>) -> Option<ExtractionRuleView> {
    let l = trim(line);
    if l.len() == 0 || l[0] == '#' {
        None
    } else {
        match split_once(l, '=') {
            None => None,
            Some(parts) => {
                let name = trim(parts.0);
                let path = trim(parts.1);
                if name.len() == 0 || path.len() == 0 {
                    None
                } else {
                    Some(
                        ExtractionRuleView {
                            variable_name: name,
                            json_path: path,
                            secret: secret_name(name),
                        },
                    )
                }
            },
        }
    }
}

/// The rules of the given lines, in order.
pub open spec fn rules_of_lines(ls: Seq<Seq<char>>) -> Seq<ExtractionRuleView>
    decreases ls.len(),
{
    if ls.len() == 0 {
        Seq::empty()
    } else {
        let before = rules_of_lines(ls.drop_last());
        match rule_of_line(ls.last()) {
            Some(r) => before.push(r),
            None => before,
        }
    }
}

/// Rules seen as plain text.
pub open spec fn rule_views(v: Seq<ExtractionRule>) -> Seq<ExtractionRuleView> {
    Seq::new(v.len(), |i: int| v[i]@)
}

/// The rule of one line.
fn parse_rule_line(line: &Vec<char>) -> (r: Option<ExtractionRule>)
    ensures
        r matches Some(rule) ==> rule_of_line(line@) == Some(rule@),
        r is None ==> rule_of_line(line@) is None,
{
    let l = trimmed(line);
    if l.len() == 0 || l[0] == '#' {
        return None;
    }
    proof {
        lemma_find_char_from(l@, '=', 0);
    }
    match find_char(&l, '=', 0) {
        None => None,
        Some(eq) => {
            let n = slice_chars(&l, 0, eq);
            let p = slice_chars(&l, eq + 1, l.len());
            assert(n@ =~= l@.take(eq as int));
            assert(p@ =~= l@.skip(eq + 1));
            let name = trimmed(&n);
            let path = trimmed(&p);
            if name.len() == 0 || path.len() == 0 {
                return None;
            }
            let name_text = string_from(&name);
            let secret = is_secret_name(name_text.as_str());
            Some(
                ExtractionRule {
                    variable_name: name_text,
                    json_path: string_from(&path),
                    secret: secret,
                },
            )
        },
    }
}

/// The extraction rules written one per line as `name = $.path`.
pub fn parse_extraction_rules(input: &str) -> (r: Vec<ExtractionRule>)
    ensures
        rule_views(r@) == rules_of_lines(lines(input@)),
{
    let s = chars_of(input);
    let ls = split_lines(&s);
    let ghost rows = char_rows(ls@);
    let mut r: Vec<ExtractionRule> = Vec::new();
    for i in 0..ls.len()
        invariant
            rows == char_rows(ls@),
            rows == lines(input@),
            rule_views(r@) == rules_of_lines(rows.take(i as int)),
    {
        assert(rows.take(i + 1).drop_last() =~= rows.take(i as int));
        let ghost before = r@;
        match parse_rule_line(&ls[i]) {
            Some(rule) => {
                r.push(rule);
                assert(rule_views(r@) =~= rule_views(before).push(rule@));
            },
            None => {},
        }
    }
    assert(rows.take(ls.len() as int) =~= rows);
    r
}

/// The value of the first member named `key` among `ms[i..]`.
pub open spec fn member_value(ms: Seq<(Seq<char>, JsonData)>, key: Seq<char>, i: int) -> Option<
    JsonData,
>
    decreases ms.len() - i,
{
    if i < 0 || i >= ms.len() {
        None
    } else if ms[i].0 == key {
        Some(ms[i].1)
    } else {
        member_value(ms, key, i + 1)
    }
}

/// `Value::get` with a key: the member of an object.
pub open spec fn child_by_key(d: JsonData, key: Seq<char>) -> Option<JsonData> {
    match d {
        JsonData::Object(ms) => member_value(ms, key, 0),
        _ => None,
    }
}

/// `Value::get` with an index: the element of an array.
pub open spec fn child_by_index(d: JsonData, i: int) -> Option<JsonData> {
    match d {
        JsonData::Array(items) => if 0 <= i < items.len() {
            Some(items[i])
        } else {
            None
        },
        _ => None,
    }
}

pub open spec fn is_digit(c: char) -> bool {
    '0' <= c && c <= '9'
}

/// The number that a string of decimal digits writes.
pub open spec fn digits_value(s: Seq<char>) -> int
    decreases s.len(),
{
    if s.len() == 0 {
        0
    } else {
        digits_value(s.drop_last()) * 10 + ((s.last() as int) - ('0' as int))
    }
}

/// What `str::parse::<usize>` gives: an optional `+` and at least one
/// decimal digit, with a value that fits in `usize`.
pub open spec fn index_value(s: Seq<char>) -> Option<int> {
    let d = unsigned_part(s);
    if d.len() > 0 && all_digits(d) && digits_value(d) <= usize::MAX {
        Some(digits_value(d))
    } else {
        None
    }
}

/// `s` without one leading `+`.
pub open spec fn unsigned_part(s: Seq<char>) -> Seq<char> {
    if s.len() > 0 && s[0] == '+' {
        s.drop_first()
    } else {
        s
    }
}

pub open spec fn all_digits(d: Seq<char>) -> bool {
    forall|k: int| 0 <= k < d.len() ==> is_digit(#[trigger] d[k])
}

/// One step of a JSON path: `name`, `name[index]` or `[index]`; only the
/// first bracket of a segment counts, and text after its `]` is ignored.
pub open spec fn segment_step(d: JsonData, seg: Seq<char>) -> Option<JsonData> {
    if seg.len() == 0 {
        None
    } else {
        match find_char_from(seg, '[', 0) {
            None => child_by_key(d, seg),
            Some(start) => match find_char_from(seg, ']', start + 1) {
                None => None,
                Some(end) => match index_value(seg.subrange(start + 1, end)) {
                    None => None,
                    Some(idx) => {
                        let name = seg.take(start);
                        let base = if name.len() > 0 {
                            child_by_key(d, name)
                        } else {
                            Some(d)
                        };
                        match base {
                            None => None,
                            Some(b) => child_by_index(b, idx),
                        }
                    },
                },
            },
        }
    }
}

/// The pieces of `s[from..]` between occurrences of `c`, as `str::split` gives them.
pub open spec fn split_from(s: Seq<char>, c: char, from: int) -> Seq<Seq<char>>
    decreases s.len() + 1 - from,
{
    if from < 0 || from > s.len() {
        Seq::empty()
    } else {
        proof {
            lemma_find_char_from(s, c, from);
        }
        match find_char_from(s, c, from) {
            None => seq![s.subrange(from, s.len() as int)],
            Some(i) => if i < from {
                Seq::empty()
            } else {
                seq![s.subrange(from, i)] + split_from(s, c, i + 1)
            },
        }
    }
}

/// Following the segments `segs[k..]` from `d`.
pub open spec fn walk(d: JsonData, segs: Seq<Seq<char>>, k: int) -> Option<JsonData>
    decreases segs.len() - k,
{
    if k < 0 || k >= segs.len() {
        Some(d)
    } else {
        match segment_step(d, segs[k]) {
            None => None,
            Some(next) => walk(next, segs, k + 1),
        }
    }
}

/// The value that a path `$.a.b[0].c` picks out of a JSON value.
pub open spec fn extraction(d: JsonData, path: Seq<char>) -> Option<JsonData> {
    let p = trim(path);
    if starts_with(p, seq!['$', '.']) {
        walk(d, split_from(p.skip(2), '.', 0), 0)
    } else {
        None
    }
}

/// The text a variable takes from a JSON value: a string's own characters,
/// and the compact JSON text of anything else.
pub open spec fn value_text(d: JsonData) -> Seq<char> {
    match d {
        JsonData::Str(s) => s,
        _ => render(d),
    }
}

pub fn json_value_to_string(value: &JsonValue) -> (r: String)
    ensures
        r@ == value_text(value@),
{
    match value {
        JsonValue::Str(s) => s.clone(),
        _ => render_text(value),
    }
}

/// The member named `key` of an object.
fn child_key<'a>(v: &'a JsonValue, key: &Vec<char>) -> (r: Option<&'a JsonValue>)
    ensures
        r matches Some(c) ==> child_by_key(v@, key@) == Some(c@),
        r is None ==> child_by_key(v@, key@) is None,
{
    match v {
        JsonValue::Object(members) => {
            proof {
                lemma_object_view(*members);
            }
            let ghost ms = member_views(members@);
            let mut i: usize = 0;
            while i < members.len()
                invariant
                    i <= members@.len(),
                    ms == member_views(members@),
                    child_by_key(v@, key@) == member_value(ms, key@, i as int),
                decreases members.len() - i,
            {
                let name = chars_of(members[i].0.as_str());
                if same_chars(&name, key) {
                    assert(ms[i as int].0 == key@);
                    assert(ms[i as int].1 == members@[i as int].1@);
                    return Some(&members[i].1);
                }
                i = i + 1;
            }
            None
        },
        _ => None,
    }
}

/// The element at `idx` of an array.
fn child_index(v: &JsonValue, idx: usize) -> (r: Option<&JsonValue>)
    ensures
        r matches Some(c) ==> child_by_index(v@, idx as int) == Some(c@),
        r is None ==> child_by_index(v@, idx as int) is None,
{
    match v {
        JsonValue::Array(items) => {
            proof {
                lemma_array_view(*items);
            }
            if idx < items.len() {
                Some(&items[idx])
            } else {
                None
            }
        },
        _ => None,
    }
}

proof fn lemma_digits_prefix(d: Seq<char>, k: int)
    requires
        0 <= k <= d.len(),
        forall|j: int| 0 <= j < d.len() ==> is_digit(d[j]),
    ensures
        digits_value(d.take(k)) <= digits_value(d),
        0 <= digits_value(d.take(k)),
    decreases d.len(),
{
    if d.len() > 0 {
        if k < d.len() {
            lemma_digits_prefix(d.drop_last(), k);
            assert(d.drop_last().take(k) =~= d.take(k));
        } else {
            assert(d.take(k) =~= d);
            lemma_digits_prefix(d.drop_last(), d.len() - 1);
            assert(d.drop_last().take(d.len() - 1) =~= d.drop_last());
        }
    } else {
        assert(d.take(k) =~= d);
    }
}

/// The index that the text between brackets gives.
fn parse_index(s: &Vec<char>) -> (r: Option<usize>)
    ensures
        r matches Some(i) ==> index_value(s@) == Some(i as int),
        r is None ==> index_value(s@) is None,
{
    let start: usize = if s.len() > 0 && s[0] == '+' {
        1
    } else {
        0
    };
    let d = slice_chars(s, start, s.len());
    let ghost digits = unsigned_part(s@);
    assert(d@ =~= digits);
    if d.len() == 0 {
        return None;
    }
    let mut k: usize = 0;
    while k < d.len()
        invariant
            k <= d.len(),
            d@ == digits,
            digits == unsigned_part(s@),
            forall|j: int| 0 <= j < k ==> is_digit(d@[j]),
        decreases d.len() - k,
    {
        if !('0' <= d[k] && d[k] <= '9') {
            assert(!is_digit(digits[k as int]));
            assert(!all_digits(digits));
            return None;
        }
        k = k + 1;
    }
    let mut value: usize = 0;
    let mut i: usize = 0;
    assert(d@.take(0) =~= Seq::<char>::empty());
    while i < d.len()
        invariant
            i <= d.len(),
            d@ == digits,
            digits == unsigned_part(s@),
            forall|j: int| 0 <= j < d.len() ==> is_digit(d@[j]),
            value == digits_value(d@.take(i as int)),
        decreases d.len() - i,
    {
        let digit = (d[i] as u32 - '0' as u32) as usize;
        assert(d@.take(i + 1).drop_last() =~= d@.take(i as int));
        proof {
            lemma_digits_prefix(d@, i + 1);
        }
        if value > (usize::MAX - digit) / 10 {
            assert(digits_value(d@.take(i + 1)) > usize::MAX) by (nonlinear_arith)
                requires
                    value > (usize::MAX - digit) / 10,
                    digits_value(d@.take(i + 1)) == value * 10 + digit,
                    digit <= 9,
            ;
            assert(digits_value(d@) > usize::MAX);
            return None;
        }
        assert(value * 10 + digit <= usize::MAX) by (nonlinear_arith)
            requires
                value <= (usize::MAX - digit) / 10,
                digit <= 9,
        ;
        value = value * 10 + digit;
        i = i + 1;
    }
    assert(d@.take(d.len() as int) =~= d@);
    Some(value)
}

/// The pieces of `s` between dots.
fn split_dots(s: &Vec<char>) -> (r: Vec<Vec<char>>)
    ensures
        char_rows(r@) == split_from(s@, '.', 0),
{
    let mut r: Vec<Vec<char>> = Vec::new();
    let mut from: usize = 0;
    loop
        invariant
            from <= s.len(),
            split_from(s@, '.', 0) == char_rows(r@) + split_from(s@, '.', from as int),
        decreases s.len() - from,
    {
        proof {
            lemma_find_char_from(s@, '.', from as int);
        }
        let ghost before = char_rows(r@);
        match find_char(s, '.', from) {
            None => {
                let piece = slice_chars(s, from, s.len());
                r.push(piece);
                assert(char_rows(r@) =~= before + split_from(s@, '.', from as int));
                return r;
            },
            Some(i) => {
                let piece = slice_chars(s, from, i);
                r.push(piece);
                assert(char_rows(r@) + split_from(s@, '.', i + 1) =~= before + split_from(
                    s@,
                    '.',
                    from as int,
                ));
                from = i + 1;
            },
        }
    }
}

/// One path segment applied to a value.
fn step<'a>(current: &'a JsonValue, seg: &Vec<char>) -> (r: Option<&'a JsonValue>)
    ensures
        r matches Some(c) ==> segment_step(current@, seg@) == Some(c@),
        r is None ==> segment_step(current@, seg@) is None,
{
    if seg.len() == 0 {
        return None;
    }
    proof {
        lemma_find_char_from(seg@, '[', 0);
    }
    match find_char(seg, '[', 0) {
        None => child_key(current, seg),
        Some(start) => {
            proof {
                lemma_find_char_from(seg@, ']', start + 1);
            }
            match find_char(seg, ']', start + 1) {
                None => None,
                Some(end) => {
                    let inner = slice_chars(seg, start + 1, end);
                    match parse_index(&inner) {
                        None => None,
                        Some(idx) => {
                            let name = slice_chars(seg, 0, start);
                            assert(name@ =~= seg@.take(start as int));
                            if name.len() > 0 {
                                match child_key(current, &name) {
                                    None => None,
                                    Some(b) => child_index(b, idx),
                                }
                            } else {
                                child_index(current, idx)
                            }
                        },
                    }
                },
            }
        },
    }
}

/// The value that a path like `$.items[0].id` picks out of `json`.
pub fn extract_json_path<'a>(json: &'a JsonValue, path: &str) -> (r: Option<&'a JsonValue>)
    ensures
        r matches Some(v) ==> extraction(json@, path@) == Some(v@),
        r is None ==> extraction(json@, path@) is None,
{
    let p = trimmed(&chars_of(path));
    if !(p.len() >= 2 && p[0] == '$' && p[1] == '.') {
        proof {
            if starts_with(p@, seq!['$', '.']) {
                assert(p@.subrange(0, 2)[0] == p@[0]);
                assert(p@.subrange(0, 2)[1] == p@[1]);
            }
        }
        return None;
    }
    assert(p@.subrange(0, 2) =~= seq!['$', '.']);
    let rest = slice_chars(&p, 2, p.len());
    assert(rest@ =~= p@.skip(2));
    let segs = split_dots(&rest);
    let ghost rows = char_rows(segs@);
    let mut current = json;
    let mut k: usize = 0;
    while k < segs.len()
        invariant
            k <= segs@.len(),
            rows == char_rows(segs@),
            extraction(json@, path@) == walk(current@, rows, k as int),
        decreases segs.len() - k,
    {
        match step(current, &segs[k]) {
            None => {
                return None;
            },
            Some(next) => {
                current = next;
            },
        }
        k = k + 1;
    }
    Some(current)
}

/// The variable that a rule takes from a JSON value, if its path matches.
pub open spec fn extracted_variable(rule: ExtractionRuleView, d: JsonData) -> Option<
    RuntimeVariableView,
> {
    match extraction(d, rule.json_path) {
        Some(v) => Some(
            RuntimeVariableView {
                key: rule.variable_name,
                value: value_text(v),
                secret: rule.secret || secret_name(rule.variable_name),
            },
        ),
        None => None,
    }
}

/// The variables after applying the rules in order to a JSON value, and how
/// many rules matched; a rule whose path does not match changes nothing.
pub open spec fn applied_rules(
    store: Map<Seq<char>, RuntimeVariableView>,
    rules: Seq<ExtractionRuleView>,
    d: JsonData,
) -> (Map<Seq<char>, RuntimeVariableView>, nat)
    decreases rules.len(),
{
    if rules.len() == 0 {
        (store, 0)
    } else {
        let before = applied_rules(store, rules.drop_last(), d);
        match extracted_variable(rules.last(), d) {
            Some(v) => (before.0.insert(rules.last().variable_name, v), before.1 + 1),
            None => before,
        }
    }
}

/// The message given for a response that is not JSON.
pub open spec fn invalid_json_message(err: Seq<char>) -> Seq<char> {
    "Response is not valid JSON: "@ + err
}

/// Runs the extraction rules on a response body and stores what they find.
pub fn apply_extraction_rules(
    body: &str,
    rules: &[ExtractionRule],
    variables: &mut VariableStore,
) -> (r: Result<usize, String>)
    ensures
        rules@.len() == 0 ==> (r matches Ok(n) && n == 0) && final(variables)@ == old(variables)@,
        rules@.len() > 0 ==> match json_reading(body@) {
            Err(e) => (r matches Err(m) && m@ == invalid_json_message(e)) && final(variables)@
                == old(variables)@,
            Ok(d) => (r matches Ok(n) && n == applied_rules(old(variables)@, rule_views(rules@), d).1)
                && final(variables)@ == applied_rules(old(variables)@, rule_views(rules@), d).0,
        },
        r is Err <==> rules@.len() > 0 && serde_compact(body@) is Err,
{
    if rules.len() == 0 {
        return Ok(0);
    }
    let json = match parse_json(body) {
        Ok(v) => v,
        Err(e) => {
            let mut m = chars_of("Response is not valid JSON: ");
            extend_str(&mut m, e.as_str());
            return Err(string_from(&m));
        },
    };
    let ghost d = json@;
    let ghost start = variables@;
    let ghost rv = rule_views(rules@);
    let mut applied: usize = 0;
    for i in 0..rules.len()
        invariant
            d == json@,
            rv == rule_views(rules@),
            (variables@, applied as nat) == applied_rules(start, rv.take(i as int), d),
            applied <= i,
    {
        assert(rv.take(i + 1).drop_last() =~= rv.take(i as int));
        assert(rv.take(i + 1).last() == rules@[i as int]@);
        let rule = &rules[i];
        match extract_json_path(&json, rule.json_path.as_str()) {
            Some(value) => {
                let text = json_value_to_string(value);
                let secret = rule.secret || is_secret_name(rule.variable_name.as_str());
                let var = RuntimeVariable {
                    key: rule.variable_name.clone(),
                    value: text,
                    secret: secret,
                };
                variables.insert(rule.variable_name.clone(), var);
                applied = applied + 1;
            },
            None => {},
        }
    }
    assert(rv.take(rules.len() as int) =~= rv);
    Ok(applied)
}


/// Text in which `{{` never occurs comes out of substitution unchanged, with
/// no unresolved names.
pub proof fn lemma_substitution_without_placeholders(
    s: Seq<char>,
    vars: Map<Seq<char>, RuntimeVariableView>,
    mask_secrets: bool,
)
    requires
        !contains(s, open_marker()),
    ensures
        substitution(s, vars, mask_secrets) == (s, Seq::<Seq<char>>::empty()),
{
    lemma_find_from(s, open_marker(), 0);
    if let Some(i) = find_from(s, open_marker(), 0) {
        assert(matches_at(s, open_marker(), i));
    }
    assert(s.subrange(0, s.len() as int) =~= s);
}

proof fn lemma_masking_from(s: Seq<char>, vars: Map<Seq<char>, RuntimeVariableView>, pos: int)
    ensures
        substitution_from(s, vars, true, pos).1 == substitution_from(s, vars, false, pos).1,
        (forall|k: Seq<char>| vars.contains_key(k) ==> !(#[trigger] vars[k]).secret)
            ==> substitution_from(s, vars, true, pos) == substitution_from(s, vars, false, pos),
        forall|i: int|
            0 <= i < substitution_from(s, vars, true, pos).1.len() ==> !vars.contains_key(
                #[trigger] substitution_from(s, vars, true, pos).1[i],
            ),
    decreases s.len() - pos,
{
    if 0 <= pos <= s.len() {
        lemma_find_from(s, open_marker(), pos);
        if let Some(start) = find_from(s, open_marker(), pos) {
            lemma_find_from(s, close_marker(), start + 2);
            if let Some(end) = find_from(s, close_marker(), start + 2) {
                if end >= start + 2 {
                    lemma_masking_from(s, vars, end + 2);
                    let key = trim(s.subrange(start + 2, end));
                    let rest = substitution_from(s, vars, true, end + 2);
                    if !vars.contains_key(key) {
                        assert forall|i: int|
                            0 <= i < (seq![key] + rest.1).len() implies !vars.contains_key(
                            #[trigger] (seq![key] + rest.1)[i],
                        ) by {
                            if i > 0 {
                                assert((seq![key] + rest.1)[i] == rest.1[i - 1]);
                            }
                        }
                    }
                }
            }
        }
    }
}

/// Masking secrets changes only what replaces a placeholder, never which
/// names are unresolved; so the safe preview and the request that is sent
/// are blocked by the same names.
pub proof fn lemma_masking_keeps_unresolved(
    s: Seq<char>,
    vars: Map<Seq<char>, RuntimeVariableView>,
)
    ensures
        substitution(s, vars, true).1 == substitution(s, vars, false).1,
{
    lemma_masking_from(s, vars, 0);
}

/// Where no variable is secret, masking changes nothing.
pub proof fn lemma_masking_without_secrets(
    s: Seq<char>,
    vars: Map<Seq<char>, RuntimeVariableView>,
)
    requires
        forall|k: Seq<char>| vars.contains_key(k) ==> !(#[trigger] vars[k]).secret,
    ensures
        substitution(s, vars, true) == substitution(s, vars, false),
{
    lemma_masking_from(s, vars, 0);
}

/// Every unresolved name is one that no runtime variable has.
pub proof fn lemma_unresolved_are_missing(
    s: Seq<char>,
    vars: Map<Seq<char>, RuntimeVariableView>,
    mask_secrets: bool,
)
    ensures
        forall|i: int|
            0 <= i < substitution(s, vars, mask_secrets).1.len() ==> !vars.contains_key(
                #[trigger] substitution(s, vars, mask_secrets).1[i],
            ),
{
    lemma_masking_from(s, vars, 0);
}

/// Every parsed rule has a non-empty name and path, and is secret exactly
/// where its name looks like a secret.
pub proof fn lemma_parsed_rules_well_formed(ls: Seq<Seq<char>>)
    ensures
        forall|i: int|
            0 <= i < rules_of_lines(ls).len() ==> {
                let r = #[trigger] rules_of_lines(ls)[i];
                &&& r.variable_name.len() > 0
                &&& r.json_path.len() > 0
                &&& r.secret == secret_name(r.variable_name)
            },
    decreases ls.len(),
{
    if ls.len() > 0 {
        lemma_parsed_rules_well_formed(ls.drop_last());
        let before = rules_of_lines(ls.drop_last());
        if let Some(r) = rule_of_line(ls.last()) {
            assert forall|i: int| 0 <= i < before.push(r).len() implies {
                let x = #[trigger] before.push(r)[i];
                &&& x.variable_name.len() > 0
                &&& x.json_path.len() > 0
                &&& x.secret == secret_name(x.variable_name)
            } by {
                if i < before.len() {
                    assert(before.push(r)[i] == before[i]);
                }
            }
        }
    }
}

/// A variable that no rule names keeps its value, or stays absent, whatever
/// the rules extract.
pub proof fn lemma_extraction_keeps_other_variables(
    store: Map<Seq<char>, RuntimeVariableView>,
    rules: Seq<ExtractionRuleView>,
    d: JsonData,
    k: Seq<char>,
)
    requires
        forall|i: int| 0 <= i < rules.len() ==> (#[trigger] rules[i]).variable_name != k,
    ensures
        applied_rules(store, rules, d).0.contains_key(k) == store.contains_key(k),
        store.contains_key(k) ==> applied_rules(store, rules, d).0[k] == store[k],
    decreases rules.len(),
{
    if rules.len() > 0 {
        assert(rules.last() == rules[rules.len() - 1]);
        lemma_extraction_keeps_other_variables(store, rules.drop_last(), d, k);
    }
}

/// A rule whose path matches stores its variable, unless a later rule of the
/// same name matches too (the later one wins).
pub proof fn lemma_extraction_stores_match(
    store: Map<Seq<char>, RuntimeVariableView>,
    rules: Seq<ExtractionRuleView>,
    d: JsonData,
    i: int,
)
    requires
        0 <= i < rules.len(),
        extracted_variable(rules[i], d) is Some,
        forall|j: int|
            i < j < rules.len() && (#[trigger] rules[j]).variable_name == rules[i].variable_name
                ==> extracted_variable(rules[j], d) is None,
    ensures
        applied_rules(store, rules, d).0.contains_key(rules[i].variable_name),
        applied_rules(store, rules, d).0[rules[i].variable_name] == extracted_variable(
            rules[i],
            d,
        ).unwrap(),
    decreases rules.len(),
{
    let n = rules.len() - 1;
    assert(rules.last() == rules[n]);
    if i < n {
        let front = rules.drop_last();
        assert forall|j: int|
            i < j < front.len() && (#[trigger] front[j]).variable_name == front[i].variable_name
                implies extracted_variable(front[j], d) is None by {
            assert(front[j] == rules[j]);
        }
        lemma_extraction_stores_match(store, front, d, i);
    }
}

/// The count that extraction gives is the number of rules whose path
/// matches.
pub proof fn lemma_extraction_count(
    store: Map<Seq<char>, RuntimeVariableView>,
    rules: Seq<ExtractionRuleView>,
    d: JsonData,
)
    ensures
        applied_rules(store, rules, d).1 == rules.filter(
            |r: ExtractionRuleView| extracted_variable(r, d) is Some,
        ).len(),
    decreases rules.len(),
{
    reveal(Seq::filter);
    if rules.len() > 0 {
        lemma_extraction_count(store, rules.drop_last(), d);
    }
}


proof fn lemma_digit_char(d: int)
    requires
        0 <= d < 10,
    ensures
        digit_char(d) as int == '0' as int + d,
{
    let digits = seq!['0', '1', '2', '3', '4', '5', '6', '7', '8', '9'];
    assert(digit_char(d) == digits[d]);
}

proof fn lemma_digits_value_decimal(n: nat)
    ensures
        digits_value(decimal(n)) == n,
    decreases n,
{
    let s = decimal(n);
    if n < 10 {
        lemma_digit_char(n as int);
        assert(s.drop_last() =~= Seq::<char>::empty());
        assert(digits_value(Seq::<char>::empty()) == 0);
        assert(s.last() == digit_char(n as int));
    } else {
        lemma_digits_value_decimal(n / 10);
        lemma_digit_char((n % 10) as int);
        assert(s.drop_last() =~= decimal(n / 10));
        assert(s.last() == digit_char((n % 10) as int));
        assert((n / 10) * 10 + n % 10 == n);
    }
}

/// Any index that fits in `usize`, written in decimal, reads back as itself.
pub proof fn lemma_index_of_decimal(n: nat)
    requires
        n <= usize::MAX,
    ensures
        index_value(decimal(n)) == Some(n as int),
{
    lemma_decimal_digits(n);
    lemma_digits_value_decimal(n);
    let d = decimal(n);
    assert(unsigned_part(d) == d);
    assert(all_digits(d));
}

proof fn lemma_single_segment(seg: Seq<char>)
    requires
        forall|j: int| 0 <= j < seg.len() ==> seg[j] != '.',
    ensures
        split_from(seg, '.', 0) == seq![seg],
{
    lemma_find_char_from(seg, '.', 0);
    assert(seg.subrange(0, seg.len() as int) =~= seg);
}

proof fn lemma_index_segment(d: JsonData, k: Seq<char>, dec: Seq<char>, idx: int)
    requires
        k.len() > 0,
        forall|j: int| 0 <= j < k.len() ==> k[j] != '[',
        forall|j: int| 0 <= j < dec.len() ==> dec[j] != ']',
        index_value(dec) == Some(idx),
    ensures
        segment_step(d, k + seq!['['] + dec + seq![']']) == match child_by_key(d, k) {
            None => None,
            Some(b) => child_by_index(b, idx),
        },
{
    let seg = k + seq!['['] + dec + seq![']'];
    lemma_find_char_from(seg, '[', 0);
    assert forall|j: int| 0 <= j < k.len() implies seg[j] != '[' by {
        assert(seg[j] == k[j]);
    }
    assert(seg[k.len() as int] == '[');
    assert(find_char_from(seg, '[', 0) == Some(k.len() as int));
    let open = k.len() as int + 1;
    let close = open + dec.len();
    lemma_find_char_from(seg, ']', open);
    assert forall|j: int| open <= j < close implies seg[j] != ']' by {
        assert(seg[j] == dec[j - open]);
    }
    assert(seg[close] == ']');
    assert(find_char_from(seg, ']', open) == Some(close));
    assert(seg.subrange(open, close) =~= dec);
    assert(seg.take(k.len() as int) =~= k);
}

/// `$.k[i]` picks element `i` of the array under the key `k`, for every
/// index written in decimal, and nothing past the array's end.
pub proof fn lemma_extract_array_element(d: JsonData, k: Seq<char>, a: Seq<JsonData>, i: nat)
    requires
        k.len() > 0,
        forall|j: int| 0 <= j < k.len() ==> k[j] != '.' && k[j] != '[',
        child_by_key(d, k) == Some(JsonData::Array(a)),
        i <= usize::MAX,
    ensures
        extraction(d, seq!['$', '.'] + k + seq!['['] + decimal(i) + seq![']']) == if i < a.len() {
            Some(a[i as int])
        } else {
            None::<JsonData>
        },
{
    let dec = decimal(i);
    lemma_decimal_digits(i);
    lemma_index_of_decimal(i);
    let path = seq!['$', '.'] + k + seq!['['] + dec + seq![']'];
    let seg = k + seq!['['] + dec + seq![']'];
    assert(path[0] == '$');
    assert(path.last() == ']');
    lemma_trim_fixed(path);
    assert(path.subrange(0, 2) =~= seq!['$', '.']);
    assert(path.skip(2) =~= seg);
    assert forall|j: int| 0 <= j < seg.len() implies seg[j] != '.' by {
        if j < k.len() {
            assert(seg[j] == k[j]);
        } else if j > k.len() && j < k.len() + 1 + dec.len() {
            assert(seg[j] == dec[j - k.len() - 1]);
        }
    }
    lemma_single_segment(seg);
    assert forall|j: int| 0 <= j < dec.len() implies dec[j] != ']' by {
        assert('0' <= dec[j] <= '9');
    }
    lemma_index_segment(d, k, dec, i as int);
    let segs = seq![seg];
    assert(segs[0] == seg);
    assert forall|x: JsonData| #[trigger] walk(x, segs, 1) == Some(x) by {}
    assert(walk(d, segs, 0) == match segment_step(d, seg) {
        None => None,
        Some(next) => walk(next, segs, 1),
    });
}

} // verus!

//! Character-level text operations on `Seq<char>` models of strings, with the
//! executable counterparts that the rest of the library uses.

use vstd::prelude::*;

verus! {

/// The Unicode `White_Space` property, which is what `char::is_whitespace`
/// and `str::trim` go by.
pub open spec fn is_whitespace(c: char) -> bool {
    ||| ('\u{9}' <= c && c <= '\u{d}')
    ||| c == ' '
    ||| c == '\u{85}'
    ||| c == '\u{a0}'
    ||| c == '\u{1680}'
    ||| ('\u{2000}' <= c && c <= '\u{200a}')
    ||| c == '\u{2028}'
    ||| c == '\u{2029}'
    ||| c == '\u{202f}'
    ||| c == '\u{205f}'
    ||| c == '\u{3000}'
}

pub fn char_is_whitespace(c: char) -> (b: bool)
    ensures
        b == is_whitespace(c),
{
    ('\u{9}' <= c && c <= '\u{d}') || c == ' ' || c == '\u{85}' || c == '\u{a0}' || c
        == '\u{1680}' || ('\u{2000}' <= c && c <= '\u{200a}') || c == '\u{2028}' || c
        == '\u{2029}' || c == '\u{202f}' || c == '\u{205f}' || c == '\u{3000}'
}

/// `s` without its leading whitespace.
pub open spec fn trim_start(s: Seq<char>) -> Seq<char>
    decreases s.len(),
{
    if s.len() > 0 && is_whitespace(s[0]) {
        trim_start(s.drop_first())
    } else {
        s
    }
}

/// `s` without its trailing whitespace.
pub open spec fn trim_end(s: Seq<char>) -> Seq<char>
    decreases s.len(),
{
    if s.len() > 0 && is_whitespace(s.last()) {
        trim_end(s.drop_last())
    } else {
        s
    }
}

/// `s` without leading and trailing whitespace, as `str::trim` gives it.
pub open spec fn trim(s: Seq<char>) -> Seq<char> {
    trim_end(trim_start(s))
}

/// Trimming leaves no whitespace at either end.
pub proof fn lemma_trim_ends(s: Seq<char>)
    ensures
        trim(s).len() > 0 ==> !is_whitespace(trim(s)[0]) && !is_whitespace(trim(s).last()),
{
    lemma_trim_start_front(s);
    lemma_trim_end_prefix(trim_start(s));
}

proof fn lemma_trim_start_front(s: Seq<char>)
    ensures
        trim_start(s).len() > 0 ==> !is_whitespace(trim_start(s)[0]),
    decreases s.len(),
{
    if s.len() > 0 && is_whitespace(s[0]) {
        lemma_trim_start_front(s.drop_first());
    }
}

proof fn lemma_trim_end_prefix(s: Seq<char>)
    ensures
        trim_end(s).len() <= s.len(),
        trim_end(s) == s.take(trim_end(s).len() as int),
        trim_end(s).len() > 0 ==> !is_whitespace(trim_end(s).last()),
    decreases s.len(),
{
    if s.len() > 0 && is_whitespace(s.last()) {
        lemma_trim_end_prefix(s.drop_last());
        let r = trim_end(s.drop_last());
        assert(s.drop_last().take(r.len() as int) =~= s.take(r.len() as int));
    } else {
        assert(s.take(s.len() as int) =~= s);
    }
}

/// A text with no whitespace at either end is its own trimming.
pub proof fn lemma_trim_fixed(s: Seq<char>)
    requires
        s.len() > 0 ==> !is_whitespace(s[0]) && !is_whitespace(s.last()),
    ensures
        trim(s) == s,
{
}

/// Every character of `w` is whitespace.
pub open spec fn all_whitespace(w: Seq<char>) -> bool {
    forall|i: int| 0 <= i < w.len() ==> is_whitespace(#[trigger] w[i])
}

/// Trailing whitespace after text that ends in a non-space is what
/// trimming the end removes.
pub proof fn lemma_trim_end_concat(a: Seq<char>, b: Seq<char>)
    requires
        a.len() > 0,
        !is_whitespace(a.last()),
    ensures
        trim_end(a + b) == a + trim_end(b),
    decreases b.len(),
{
    if b.len() == 0 {
        assert(a + b =~= a);
        assert(a + trim_end(b) =~= a);
    } else if is_whitespace(b.last()) {
        assert((a + b).drop_last() =~= a + b.drop_last());
        lemma_trim_end_concat(a, b.drop_last());
    } else {
        assert((a + b).last() == b.last());
    }
}

proof fn lemma_trim_end_ws_tail(x: Seq<char>, w: Seq<char>)
    requires
        all_whitespace(w),
    ensures
        trim_end(x + w) == trim_end(x),
    decreases w.len(),
{
    if w.len() == 0 {
        assert(x + w =~= x);
    } else {
        assert((x + w).last() == w.last());
        assert((x + w).drop_last() =~= x + w.drop_last());
        lemma_trim_end_ws_tail(x, w.drop_last());
    }
}

proof fn lemma_trim_start_concat(x: Seq<char>, y: Seq<char>)
    ensures
        trim_start(x).len() > 0 ==> trim_start(x + y) == trim_start(x) + y,
        trim_start(x).len() == 0 ==> all_whitespace(x) && trim_start(x + y) == trim_start(y),
    decreases x.len(),
{
    if x.len() == 0 {
        assert(x + y =~= y);
    } else if is_whitespace(x[0]) {
        assert((x + y).drop_first() =~= x.drop_first() + y);
        lemma_trim_start_concat(x.drop_first(), y);
        if trim_start(x).len() == 0 {
            assert forall|i: int| 0 <= i < x.len() implies is_whitespace(#[trigger] x[i]) by {
                if i > 0 {
                    assert(x[i] == x.drop_first()[i - 1]);
                }
            }
        }
    } else {
        assert((x + y)[0] == x[0]);
    }
}

proof fn lemma_trim_end_split(v: Seq<char>)
    ensures
        v == trim_end(v) + v.skip(trim_end(v).len() as int),
        all_whitespace(v.skip(trim_end(v).len() as int)),
    decreases v.len(),
{
    lemma_trim_end_prefix(v);
    if v.len() > 0 && is_whitespace(v.last()) {
        lemma_trim_end_split(v.drop_last());
        let n = trim_end(v).len() as int;
        assert(v.drop_last().skip(n) + seq![v.last()] =~= v.skip(n));
        assert forall|i: int| 0 <= i < v.skip(n).len() implies is_whitespace(
            #[trigger] v.skip(n)[i],
        ) by {
            if i < v.skip(n).len() - 1 {
                assert(v.skip(n)[i] == v.drop_last().skip(n)[i]);
            }
        }
    } else {
        assert(v.skip(v.len() as int) =~= Seq::<char>::empty());
    }
    assert(v =~= trim_end(v) + v.skip(trim_end(v).len() as int));
}

/// Trimming text whose end was trimmed already is trimming the text.
pub proof fn lemma_trim_after_trim_end(v: Seq<char>)
    ensures
        trim(trim_end(v)) == trim(v),
{
    let e = trim_end(v);
    let w = v.skip(e.len() as int);
    lemma_trim_end_split(v);
    lemma_trim_start_concat(e, w);
    lemma_trim_end_prefix(e);
    if trim_start(e).len() > 0 {
        lemma_trim_end_ws_tail(trim_start(e), w);
    } else {
        lemma_trim_start_front(e);
        lemma_trim_end_prefix(v);
        if e.len() > 0 {
            assert(is_whitespace(e.last()));
        }
        assert(trim_start(w) =~= Seq::<char>::empty()) by {
            lemma_trim_start_concat(w, Seq::<char>::empty());
            if trim_start(w).len() > 0 {
                lemma_trim_start_front(w);
                let k = w.len() - trim_start(w).len();
                lemma_trim_start_skip(w);
                assert(trim_start(w)[0] == w[k]);
            }
        }
    }
}

proof fn lemma_trim_start_skip(s: Seq<char>)
    ensures
        trim_start(s).len() <= s.len(),
        trim_start(s) == s.skip(s.len() - trim_start(s).len()),
    decreases s.len(),
{
    if s.len() > 0 && is_whitespace(s[0]) {
        lemma_trim_start_skip(s.drop_first());
        let n = trim_start(s).len();
        assert(s.drop_first().skip(s.len() - 1 - n) =~= s.skip(s.len() - n));
    } else {
        assert(s.skip(0) =~= s);
    }
}

/// Splitting at the first `c` of `a c b`, where `a` holds no `c`, gives `a`
/// and `b`.
pub proof fn lemma_split_once_first(a: Seq<char>, c: char, b: Seq<char>)
    requires
        forall|i: int| 0 <= i < a.len() ==> a[i] != c,
    ensures
        split_once(a + seq![c] + b, c) == Some((a, b)),
{
    let s = a + seq![c] + b;
    lemma_find_char_from(s, c, 0);
    assert(s[a.len() as int] == c);
    assert forall|j: int| 0 <= j < a.len() implies s[j] != c by {
        assert(s[j] == a[j]);
    }
    assert(find_char_from(s, c, 0) == Some(a.len() as int));
    assert(s.take(a.len() as int) =~= a);
    assert(s.skip(a.len() as int + 1) =~= b);
}

/// A text with no line break is one line.
pub proof fn lemma_one_line(s: Seq<char>)
    requires
        s.len() > 0,
        forall|i: int| 0 <= i < s.len() ==> s[i] != '\n',
    ensures
        lines(s) == seq![s],
{
    lemma_find_char_from(s, '\n', 0);
    assert(s.subrange(0, s.len() as int) =~= s);
}

/// The digits of `n` written in decimal.
pub proof fn lemma_decimal_digits(n: nat)
    ensures
        decimal(n).len() > 0,
        forall|i: int| 0 <= i < decimal(n).len() ==> '0' <= #[trigger] decimal(n)[i] <= '9',
    decreases n,
{
    let digits = seq!['0', '1', '2', '3', '4', '5', '6', '7', '8', '9'];
    if n < 10 {
        assert(decimal(n)[0] == digits[n as int]);
    } else {
        lemma_decimal_digits(n / 10);
        let d = decimal(n / 10);
        assert forall|i: int| 0 <= i < decimal(n).len() implies '0' <= #[trigger] decimal(n)[i]
            <= '9' by {
            if i < d.len() {
                assert(decimal(n)[i] == d[i]);
            } else {
                assert(decimal(n)[i] == digits[(n % 10) as int]);
            }
        }
    }
}

/// Bounds of the trimmed part of `s[lo..hi]`.
pub fn trim_bounds(s: &Vec<char>, lo: usize, hi: usize) -> (r: (usize, usize))
    requires
        lo <= hi <= s.len(),
    ensures
        lo <= r.0 <= r.1 <= hi,
        s@.subrange(r.0 as int, r.1 as int) == trim(s@.subrange(lo as int, hi as int)),
{
    let mut i = lo;
    while i < hi && char_is_whitespace(s[i])
        invariant
            lo <= i <= hi <= s.len(),
            trim_start(s@.subrange(lo as int, hi as int)) == trim_start(
                s@.subrange(i as int, hi as int),
            ),
        decreases hi - i,
    {
        assert(s@.subrange(i as int, hi as int).drop_first() =~= s@.subrange(
            i + 1,
            hi as int,
        ));
        i = i + 1;
    }
    let mut j = hi;
    while j > i && char_is_whitespace(s[j - 1])
        invariant
            lo <= i <= j <= hi <= s.len(),
            trim(s@.subrange(lo as int, hi as int)) == trim_end(s@.subrange(i as int, j as int)),
        decreases j - i,
    {
        assert(s@.subrange(i as int, j as int).drop_last() =~= s@.subrange(
            i as int,
            j - 1,
        ));
        j = j - 1;
    }
    (i, j)
}

/// The characters of a string, in order.
pub fn chars_of(s: &str) -> (v: Vec<char>)
    ensures
        v@ == s@,
{
    let mut v: Vec<char> = Vec::new();
    for c in iter: s.chars()
        invariant
            v@ == iter.seq().take(iter.index() as int),
    {
        v.push(c);
    }
    v
}

/// Appends one character to a string.
/// Calls `String::push`; the contract claims the new text is the old text
/// followed by `c`.
#[verifier::external_body]
fn push_char(s: &mut String, c: char)
    ensures
        final(s)@ == old(s)@.push(c),
{
    s.push(c);
}

/// Appends characters to a string.
pub fn push_chars(s: &mut String, v: &Vec<char>)
    ensures
        final(s)@ == old(s)@ + v@,
{
    let ghost start = s@;
    for i in 0..v.len()
        invariant
            s@ == start + v@.take(i as int),
    {
        push_char(s, v[i]);
        assert(v@.take(i + 1) =~= v@.take(i as int).push(v@[i as int]));
    }
    assert(v@.take(v.len() as int) =~= v@);
}

/// The string whose characters are `v`.
pub fn string_from(v: &Vec<char>) -> (s: String)
    ensures
        s@ == v@,
{
    let mut s = String::new();
    push_chars(&mut s, v);
    s
}

/// `p` occurs in `s` at position `i`.
pub open spec fn matches_at(s: Seq<char>, p: Seq<char>, i: int) -> bool {
    0 <= i && i + p.len() <= s.len() && s.subrange(i, i + p.len()) == p
}

/// The first position at or after `from` where `p` occurs in `s`.
pub open spec fn find_from(s: Seq<char>, p: Seq<char>, from: int) -> Option<int>
    decreases s.len() + 1 - from,
{
    if from < 0 || from + p.len() > s.len() {
        None
    } else if matches_at(s, p, from) {
        Some(from)
    } else {
        find_from(s, p, from + 1)
    }
}

pub proof fn lemma_find_from(s: Seq<char>, p: Seq<char>, from: int)
    requires
        0 <= from,
    ensures
        find_from(s, p, from) matches Some(i) ==> from <= i && matches_at(s, p, i) && i + p.len()
            <= s.len() && forall|j: int| from <= j < i ==> !matches_at(s, p, j),
        find_from(s, p, from) is None ==> forall|j: int| from <= j ==> !matches_at(s, p, j),
    decreases s.len() + 1 - from,
{
    if from + p.len() > s.len() {
    } else if matches_at(s, p, from) {
    } else {
        lemma_find_from(s, p, from + 1);
    }
}

/// `p` occurs in `s` at position `i`.
pub fn match_at(s: &Vec<char>, p: &Vec<char>, i: usize) -> (b: bool)
    ensures
        b == matches_at(s@, p@, i as int),
{
    if i > s.len() || p.len() > s.len() - i {
        return false;
    }
    let mut k: usize = 0;
    while k < p.len()
        invariant
            i + p.len() <= s.len(),
            k <= p.len(),
            forall|t: int| 0 <= t < k ==> s@[i + t] == p@[t],
        decreases p.len() - k,
    {
        if s[i + k] != p[k] {
            assert(s@.subrange(i as int, i + p.len())[k as int] != p@[k as int]);
            return false;
        }
        k = k + 1;
    }
    assert(s@.subrange(i as int, i + p.len()) =~= p@);
    true
}

/// First occurrence of `p` in `s` at or after `from`.
pub fn find(s: &Vec<char>, p: &Vec<char>, from: usize) -> (r: Option<usize>)
    ensures
        r matches Some(i) ==> find_from(s@, p@, from as int) == Some(i as int),
        r is None ==> find_from(s@, p@, from as int) is None,
{
    if from > s.len() || p.len() > s.len() - from {
        return None;
    }
    let last = s.len() - p.len();
    let mut i = from;
    while i <= last
        invariant
            from <= i,
            last == s.len() - p.len(),
            find_from(s@, p@, from as int) == find_from(s@, p@, i as int),
        decreases last + 1 - i,
    {
        if match_at(s, p, i) {
            return Some(i);
        }
        if i == last {
            assert(find_from(s@, p@, i + 1) is None);
            return None;
        }
        i = i + 1;
    }
    None
}

/// First occurrence of character `c` in `s` at or after `from`.
pub open spec fn find_char_from(s: Seq<char>, c: char, from: int) -> Option<int>
    decreases s.len() - from,
{
    if from < 0 || from >= s.len() {
        None
    } else if s[from] == c {
        Some(from)
    } else {
        find_char_from(s, c, from + 1)
    }
}

pub proof fn lemma_find_char_from(s: Seq<char>, c: char, from: int)
    requires
        0 <= from,
    ensures
        find_char_from(s, c, from) matches Some(i) ==> from <= i < s.len() && s[i] == c && forall|
            j: int,
        | from <= j < i ==> s[j] != c,
        find_char_from(s, c, from) is None ==> forall|j: int| from <= j < s.len() ==> s[j] != c,
    decreases s.len() - from,
{
    if from < s.len() && s[from] != c {
        lemma_find_char_from(s, c, from + 1);
    }
}

pub fn find_char(s: &Vec<char>, c: char, from: usize) -> (r: Option<usize>)
    ensures
        r matches Some(i) ==> find_char_from(s@, c, from as int) == Some(i as int),
        r is None ==> find_char_from(s@, c, from as int) is None,
{
    let mut i = from;
    while i < s.len()
        invariant
            from <= i,
            find_char_from(s@, c, from as int) == find_char_from(s@, c, i as int),
        decreases s.len() - i,
    {
        if s[i] == c {
            return Some(i);
        }
        i = i + 1;
    }
    None
}

/// `p` occurs somewhere in `s`.
pub open spec fn contains(s: Seq<char>, p: Seq<char>) -> bool {
    exists|i: int| matches_at(s, p, i)
}

pub fn contains_seq(s: &Vec<char>, p: &Vec<char>) -> (b: bool)
    ensures
        b == contains(s@, p@),
{
    let r = find(s, p, 0);
    proof {
        lemma_find_from(s@, p@, 0);
    }
    r.is_some()
}

/// `s` begins with `p`.
pub open spec fn starts_with(s: Seq<char>, p: Seq<char>) -> bool {
    matches_at(s, p, 0)
}

/// The text before and after the first `c` in `s`, as `str::split_once` gives it.
pub open spec fn split_once(s: Seq<char>, c: char) -> Option<(Seq<char>, Seq<char>)> {
    match find_char_from(s, c, 0) {
        Some(i) => Some((s.take(i), s.skip(i + 1))),
        None => None,
    }
}

/// `s` without one trailing carriage return.
pub open spec fn strip_cr(s: Seq<char>) -> Seq<char> {
    if s.len() > 0 && s.last() == '\r' {
        s.drop_last()
    } else {
        s
    }
}

/// The lines of `s[from..]`, as `str::lines` gives them: split at `\n`, a
/// `\r` right before a `\n` dropped, and no empty line after a final `\n`.
pub open spec fn lines_from(s: Seq<char>, from: int) -> Seq<Seq<char>>
    decreases s.len() - from,
{
    if from < 0 || from >= s.len() {
        seq![]
    } else {
        proof {
            lemma_find_char_from(s, '\n', from);
        }
        match find_char_from(s, '\n', from) {
            Some(i) => {
                if i < from {
                    seq![]
                } else {
                    seq![strip_cr(s.subrange(from, i))] + lines_from(s, i + 1)
                }
            },
            None => seq![s.subrange(from, s.len() as int)],
        }
    }
}

pub open spec fn lines(s: Seq<char>) -> Seq<Seq<char>> {
    lines_from(s, 0)
}

/// A vector of character vectors, seen as sequences.
pub open spec fn char_rows(v: Seq<Vec<char>>) -> Seq<Seq<char>> {
    Seq::new(v.len(), |i: int| v[i]@)
}

/// A vector of strings, seen as sequences of characters.
pub open spec fn string_rows(v: Seq<String>) -> Seq<Seq<char>> {
    Seq::new(v.len(), |i: int| v[i]@)
}

/// Strings made of each character vector.
pub fn strings_from(v: &Vec<Vec<char>>) -> (r: Vec<String>)
    ensures
        string_rows(r@) == char_rows(v@),
{
    let mut r: Vec<String> = Vec::new();
    for i in 0..v.len()
        invariant
            r@.len() == i,
            forall|j: int| 0 <= j < i ==> r@[j]@ == v@[j]@,
    {
        r.push(string_from(&v[i]));
    }
    assert(string_rows(r@) =~= char_rows(v@));
    r
}

/// The lines of `s`.
pub fn split_lines(s: &Vec<char>) -> (r: Vec<Vec<char>>)
    ensures
        char_rows(r@) == lines(s@),
{
    let mut r: Vec<Vec<char>> = Vec::new();
    let mut from: usize = 0;
    while from < s.len()
        invariant
            from <= s.len(),
            lines(s@) == char_rows(r@) + lines_from(s@, from as int),
        decreases s.len() - from,
    {
        let next = find_char(s, '\n', from);
        proof {
            lemma_find_char_from(s@, '\n', from as int);
        }
        let end = match next {
            Some(i) => i,
            None => s.len(),
        };
        let mut line: Vec<char> = Vec::new();
        let mut k = from;
        while k < end
            invariant
                from <= k <= end <= s.len(),
                line@ == s@.subrange(from as int, k as int),
            decreases end - k,
        {
            line.push(s[k]);
            assert(line@ =~= s@.subrange(from as int, k + 1));
            k = k + 1;
        }
        if next.is_some() && line.len() > 0 && line[line.len() - 1] == '\r' {
            line.pop();
        }
        let ghost old_rows = r@;
        r.push(line);
        assert(char_rows(r@) =~= char_rows(old_rows).push(line@));
        match next {
            Some(i) => {
                assert(lines_from(s@, from as int) == seq![line@] + lines_from(s@, i + 1));
                assert(char_rows(r@) + lines_from(s@, i + 1) =~= char_rows(old_rows)
                    + lines_from(s@, from as int));
                from = i + 1;
            },
            None => {
                assert(lines_from(s@, from as int) == seq![line@]);
                assert(lines_from(s@, s.len() as int) == Seq::<Seq<char>>::empty());
                assert(char_rows(r@) + lines_from(s@, s.len() as int) =~= char_rows(old_rows)
                    + lines_from(s@, from as int));
                from = s.len();
            },
        }
    }
    assert(lines_from(s@, from as int) == Seq::<Seq<char>>::empty());
    assert(char_rows(r@) + Seq::<Seq<char>>::empty() =~= char_rows(r@));
    r
}

/// The characters `v[lo..hi]`.
pub fn slice_chars(v: &Vec<char>, lo: usize, hi: usize) -> (r: Vec<char>)
    requires
        lo <= hi <= v.len(),
    ensures
        r@ == v@.subrange(lo as int, hi as int),
{
    let mut r: Vec<char> = Vec::new();
    let mut k = lo;
    while k < hi
        invariant
            lo <= k <= hi <= v.len(),
            r@ == v@.subrange(lo as int, k as int),
        decreases hi - k,
    {
        r.push(v[k]);
        assert(r@ =~= v@.subrange(lo as int, k + 1));
        k = k + 1;
    }
    r
}

/// Appends the characters of `src` to `dst`.
pub fn extend_chars(dst: &mut Vec<char>, src: &Vec<char>)
    ensures
        final(dst)@ == old(dst)@ + src@,
{
    let ghost start = dst@;
    for i in 0..src.len()
        invariant
            dst@ == start + src@.take(i as int),
    {
        dst.push(src[i]);
        assert(src@.take(i + 1) =~= src@.take(i as int).push(src@[i as int]));
    }
    assert(src@.take(src.len() as int) =~= src@);
}

/// Appends the characters of a string slice to `dst`.
pub fn extend_str(dst: &mut Vec<char>, s: &str)
    ensures
        final(dst)@ == old(dst)@ + s@,
{
    let c = chars_of(s);
    extend_chars(dst, &c);
}

/// The trimmed characters of `s`.
pub fn trimmed(s: &Vec<char>) -> (r: Vec<char>)
    ensures
        r@ == trim(s@),
{
    let (a, b) = trim_bounds(s, 0, s.len());
    assert(s@.subrange(0, s.len() as int) =~= s@);
    slice_chars(s, a, b)
}

/// ASCII lowercase of a character.
pub open spec fn ascii_lower(c: char) -> char {
    if 'A' <= c && c <= 'Z' {
        ((c as int) + 32) as char
    } else {
        c
    }
}

/// ASCII lowercase of a text, as header names are kept.
pub open spec fn ascii_lowercase(s: Seq<char>) -> Seq<char> {
    Seq::new(s.len(), |i: int| ascii_lower(s[i]))
}

/// Every character is ASCII.
pub open spec fn ascii_text(s: Seq<char>) -> bool {
    forall|i: int| 0 <= i < s.len() ==> (#[trigger] s[i] as u32) < 128
}

/// The lowercase form of a text, as `str::to_lowercase` gives it: for ASCII
/// text its ASCII lowercase, and otherwise the result named `lowercase`.
pub open spec fn lower_form(s: Seq<char>) -> Seq<char> {
    if ascii_text(s) {
        ascii_lowercase(s)
    } else {
        lowercase(s)
    }
}

/// Calls `str::to_lowercase` on the string made of `s`.
pub fn lowercase_chars(s: &Vec<char>) -> (r: Vec<char>)
    ensures
        r@ == lower_form(s@),
{
    let st = string_from(s);
    let low = to_lowercase(st.as_str());
    chars_of(low.as_str())
}

/// What `str::to_lowercase` gives for a string.
pub uninterp spec fn lowercase(s: Seq<char>) -> Seq<char>;

/// Calls `str::to_lowercase`. The contract claims that the result is a
/// function of the argument's characters, named `lowercase`, and that for
/// ASCII text it is the ASCII lowercase: the function maps each character
/// to its Unicode lowercase (the Derived Core Property `Lowercase`, as its
/// documentation says), which for ASCII is `A`..`Z` to `a`..`z` and every
/// other ASCII character to itself; the one context-dependent mapping
/// (final sigma) concerns a character outside ASCII.
#[verifier::external_body]
pub(crate) fn to_lowercase(s: &str) -> (r: String)
    ensures
        r@ == lowercase(s@),
        ascii_text(s@) ==> r@ == ascii_lowercase(s@),
{
    s.to_lowercase()
}

/// The decimal digit for `d`.
pub open spec fn digit_char(d: int) -> char {
    seq!['0', '1', '2', '3', '4', '5', '6', '7', '8', '9'][d]
}

/// The decimal numeral of `n`, as `usize`'s `Display` writes it.
pub open spec fn decimal(n: nat) -> Seq<char>
    decreases n,
{
    if n < 10 {
        seq![digit_char(n as int)]
    } else {
        decimal(n / 10).push(digit_char((n % 10) as int))
    }
}

fn write_decimal(n: usize, out: &mut Vec<char>)
    ensures
        final(out)@ == old(out)@ + decimal(n as nat),
    decreases n,
{
    let digits = vec!['0', '1', '2', '3', '4', '5', '6', '7', '8', '9'];
    assert(digits@ =~= seq!['0', '1', '2', '3', '4', '5', '6', '7', '8', '9']);
    let ghost start = out@;
    if n >= 10 {
        write_decimal(n / 10, out);
    }
    out.push(digits[n % 10]);
    assert(out@ =~= start + decimal(n as nat));
}

/// The decimal numeral of `n`.
pub fn decimal_string(n: usize) -> (r: String)
    ensures
        r@ == decimal(n as nat),
{
    let mut out: Vec<char> = Vec::new();
    write_decimal(n, &mut out);
    assert(out@ =~= decimal(n as nat));
    string_from(&out)
}

/// The texts `ls`, joined with `sep` between each two.
pub open spec fn join(ls: Seq<Seq<char>>, sep: Seq<char>) -> Seq<char>
    decreases ls.len(),
{
    if ls.len() == 0 {
        Seq::empty()
    } else if ls.len() == 1 {
        ls[0]
    } else {
        join(ls.drop_last(), sep) + sep + ls.last()
    }
}

/// The strings `ls` joined with `sep` between each two.
pub fn join_strings(ls: &Vec<String>, sep: &str) -> (r: Vec<char>)
    ensures
        r@ == join(string_rows(ls@), sep@),
{
    let ghost rows = string_rows(ls@);
    let mut out: Vec<char> = Vec::new();
    for i in 0..ls.len()
        invariant
            rows == string_rows(ls@),
            out@ == join(rows.take(i as int), sep@),
    {
        assert(rows.take(i + 1).drop_last() =~= rows.take(i as int));
        if i > 0 {
            extend_str(&mut out, sep);
        }
        extend_str(&mut out, ls[i].as_str());
        assert(rows.take(i + 1).last() == ls@[i as int]@);
        assert(out@ =~= join(rows.take(i + 1), sep@));
    }
    assert(rows.take(ls.len() as int) =~= rows);
    out
}

} // verus!

//! Lexicographic order on character sequences (the order of `String`'s
//! `Ord`, since UTF-8 preserves code point order) and sorted, duplicate-free
//! lists of names.

use vstd::prelude::*;

use crate::text::char_rows;

verus! {

/// `a[i..]` comes before `b[i..]` in lexicographic order of code points.
pub open spec fn less_from(a: Seq<char>, b: Seq<char>, i: int) -> bool
    decreases a.len() - i,
{
    if i < 0 {
        false
    } else if i >= a.len() {
        i < b.len()
    } else if i >= b.len() {
        false
    } else if a[i] != b[i] {
        a[i] < b[i]
    } else {
        less_from(a, b, i + 1)
    }
}

/// `a` comes before `b` in lexicographic order.
pub open spec fn text_less(a: Seq<char>, b: Seq<char>) -> bool {
    less_from(a, b, 0)
}

pub proof fn lemma_less_from_irreflexive(a: Seq<char>, i: int)
    ensures
        !less_from(a, a, i),
    decreases a.len() - i,
{
    if 0 <= i < a.len() {
        lemma_less_from_irreflexive(a, i + 1);
    }
}

pub proof fn lemma_less_from_asymmetric(a: Seq<char>, b: Seq<char>, i: int)
    ensures
        less_from(a, b, i) ==> !less_from(b, a, i),
    decreases a.len() - i,
{
    if 0 <= i < a.len() && i < b.len() && a[i] == b[i] {
        lemma_less_from_asymmetric(a, b, i + 1);
    }
}

pub proof fn lemma_less_from_transitive(a: Seq<char>, b: Seq<char>, c: Seq<char>, i: int)
    requires
        less_from(a, b, i),
        less_from(b, c, i),
    ensures
        less_from(a, c, i),
    decreases a.len() - i,
{
    if 0 <= i < a.len() && i < b.len() && i < c.len() && a[i] == b[i] && b[i] == c[i] {
        lemma_less_from_transitive(a, b, c, i + 1);
    }
}

pub proof fn lemma_less_from_total(a: Seq<char>, b: Seq<char>, i: int)
    requires
        0 <= i <= a.len(),
        i <= b.len(),
        !less_from(a, b, i),
        !less_from(b, a, i),
    ensures
        a.len() == b.len(),
        forall|j: int| i <= j < a.len() ==> a[j] == b[j],
    decreases a.len() - i,
{
    if i < a.len() && i < b.len() {
        if a[i] == b[i] {
            lemma_less_from_total(a, b, i + 1);
        }
    }
}

pub proof fn lemma_text_less_total(a: Seq<char>, b: Seq<char>)
    ensures
        text_less(a, b) || text_less(b, a) || a == b,
{
    if !text_less(a, b) && !text_less(b, a) {
        lemma_less_from_total(a, b, 0);
        assert(a =~= b);
    }
}

/// Compares two character sequences.
pub fn less(a: &Vec<char>, b: &Vec<char>) -> (r: bool)
    ensures
        r == text_less(a@, b@),
{
    let mut i: usize = 0;
    while i < a.len() && i < b.len() && a[i] == b[i]
        invariant
            i <= a.len(),
            i <= b.len(),
            text_less(a@, b@) == less_from(a@, b@, i as int),
        decreases a.len() - i,
    {
        i = i + 1;
    }
    if i >= a.len() {
        i < b.len()
    } else if i >= b.len() {
        false
    } else {
        a[i] < b[i]
    }
}

/// Two character sequences are equal.
pub fn same_chars(a: &Vec<char>, b: &Vec<char>) -> (r: bool)
    ensures
        r == (a@ == b@),
{
    if a.len() != b.len() {
        return false;
    }
    let mut i: usize = 0;
    while i < a.len()
        invariant
            i <= a.len() == b.len(),
            forall|j: int| 0 <= j < i ==> a@[j] == b@[j],
        decreases a.len() - i,
    {
        if a[i] != b[i] {
            return false;
        }
        i = i + 1;
    }
    assert(a@ =~= b@);
    true
}

/// Strictly increasing in lexicographic order, hence free of duplicates.
pub open spec fn sorted_unique(s: Seq<Seq<char>>) -> bool {
    forall|i: int, j: int| 0 <= i < j < s.len() ==> text_less(s[i], s[j])
}

/// Adds `key` to a sorted, duplicate-free list, keeping it so.
pub fn insert_sorted(list: &mut Vec<Vec<char>>, key: Vec<char>)
    requires
        sorted_unique(char_rows(old(list)@)),
    ensures
        sorted_unique(char_rows(final(list)@)),
        char_rows(final(list)@).to_set() == char_rows(old(list)@).to_set().insert(key@),
{
    let ghost rows = char_rows(list@);
    let mut i: usize = 0;
    while i < list.len() && less(&list[i], &key)
        invariant
            i <= list.len(),
            rows == char_rows(list@),
            forall|j: int| 0 <= j < i ==> text_less(rows[j], key@),
        decreases list.len() - i,
    {
        i = i + 1;
    }
    if i < list.len() && same_chars(&list[i], &key) {
        assert(rows.to_set().insert(key@) =~= rows.to_set()) by {
            assert(rows.contains(rows[i as int]));
        }
        return;
    }
    let ghost kv = key@;
    proof {
        if i < list.len() {
            lemma_text_less_total(rows[i as int], kv);
            assert(text_less(kv, rows[i as int]));
            assert forall|b: int| i <= b < rows.len() implies text_less(kv, rows[b]) by {
                if b > i {
                    assert(sorted_unique(rows));
                    assert(text_less(rows[i as int], rows[b]));
                    lemma_less_from_transitive(kv, rows[i as int], rows[b], 0);
                }
            }
        }
    }
    list.insert(i, key);
    let ghost new_rows = char_rows(list@);
    assert(new_rows =~= rows.insert(i as int, kv));
    assert forall|a: int, b: int| 0 <= a < b < new_rows.len() implies text_less(
        new_rows[a],
        new_rows[b],
    ) by {
        if b < i {
        } else if b == i {
        } else if a < i {
            lemma_less_from_transitive(rows[a], kv, rows[b - 1], 0);
        } else if a == i {
        } else {
        }
    }
    assert(new_rows.to_set() =~= rows.to_set().insert(kv)) by {
        assert forall|x: Seq<char>| new_rows.to_set().contains(x) implies rows.to_set().insert(
            kv,
        ).contains(x) by {
            let k = choose|k: int| 0 <= k < new_rows.len() && new_rows[k] == x;
            if k < i {
                assert(rows[k] == x);
            } else if k > i {
                assert(rows[k - 1] == x);
            }
        }
        assert forall|x: Seq<char>| rows.to_set().insert(kv).contains(x) implies new_rows.to_set().contains(
            x,
        ) by {
            if x == kv {
                assert(new_rows[i as int] == x);
            } else {
                let k = choose|k: int| 0 <= k < rows.len() && rows[k] == x;
                if k < i {
                    assert(new_rows[k] == x);
                } else {
                    assert(new_rows[k + 1] == x);
                }
            }
        }
    }
}

/// The first element of a strictly increasing list is the least of its set.
proof fn lemma_sorted_first_least(a: Seq<Seq<char>>, x: Seq<char>)
    requires
        sorted_unique(a),
        a.len() > 0,
        a.to_set().contains(x),
    ensures
        x == a[0] || text_less(a[0], x),
{
    let i = choose|i: int| 0 <= i < a.len() && a[i] == x;
    if i > 0 {
        assert(text_less(a[0], a[i]));
    }
}

/// A strictly increasing list is determined by the set of its elements.
pub proof fn lemma_sorted_unique_determined(a: Seq<Seq<char>>, b: Seq<Seq<char>>)
    requires
        sorted_unique(a),
        sorted_unique(b),
        a.to_set() == b.to_set(),
    ensures
        a == b,
    decreases a.len(),
{
    if a.len() == 0 {
        if b.len() > 0 {
            assert(b.to_set().contains(b[0]));
        }
        assert(a =~= b);
    } else {
        assert(a.to_set().contains(a[0]));
        assert(b.len() > 0);
        assert(b.to_set().contains(b[0]));
        lemma_sorted_first_least(a, b[0]);
        lemma_sorted_first_least(b, a[0]);
        if a[0] != b[0] {
            lemma_less_from_asymmetric(a[0], b[0], 0);
        }
        let ta = a.drop_first();
        let tb = b.drop_first();
        assert(ta.to_set() =~= tb.to_set()) by {
            assert forall|x: Seq<char>| ta.to_set().contains(x) implies tb.to_set().contains(x) by {
                let i = choose|i: int| 0 <= i < ta.len() && ta[i] == x;
                assert(text_less(a[0], a[i + 1]));
                assert(a.to_set().contains(x));
                let j = choose|j: int| 0 <= j < b.len() && b[j] == x;
                if j == 0 {
                    lemma_less_from_irreflexive(x, 0);
                }
                assert(tb[j - 1] == x);
            }
            assert forall|x: Seq<char>| tb.to_set().contains(x) implies ta.to_set().contains(x) by {
                let i = choose|i: int| 0 <= i < tb.len() && tb[i] == x;
                assert(text_less(b[0], b[i + 1]));
                assert(b.to_set().contains(x));
                let j = choose|j: int| 0 <= j < a.len() && a[j] == x;
                if j == 0 {
                    lemma_less_from_irreflexive(x, 0);
                }
                assert(ta[j - 1] == x);
            }
        }
        lemma_sorted_unique_determined(ta, tb);
        assert(a =~= b) by {
            assert forall|i: int| 0 <= i < a.len() implies a[i] == b[i] by {
                if i > 0 {
                    assert(ta[i - 1] == tb[i - 1]);
                }
            }
        }
    }
}

/// The strictly increasing list of the names in a finite set.
pub open spec fn sorted_names(s: Set<Seq<char>>) -> Seq<Seq<char>> {
    choose|l: Seq<Seq<char>>| sorted_unique(l) && l.to_set() == s
}

pub proof fn lemma_sorted_names(l: Seq<Seq<char>>)
    requires
        sorted_unique(l),
    ensures
        sorted_names(l.to_set()) == l,
{
    let s = l.to_set();
    assert(sorted_unique(l) && l.to_set() == s);
    let m = sorted_names(s);
    lemma_sorted_unique_determined(m, l);
}

} // verus!

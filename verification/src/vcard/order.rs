//! Lexicographic order on character sequences and on lists of them, and the
//! insertion rules that sorting, de-duplicating and merging are defined by.
//!
//! Comparing characters by code point orders text exactly as Rust orders
//! `String`s, whose comparison is by UTF-8 bytes.

use vstd::prelude::*;
use crate::text::rows;

verus! {

/// `a < b` for strings.
pub open spec fn str_lt(a: Seq<char>, b: Seq<char>) -> bool
    decreases a.len(),
{
    if a.len() == 0 {
        b.len() > 0
    } else if b.len() == 0 {
        false
    } else if a[0] != b[0] {
        (a[0] as u32) < (b[0] as u32)
    } else {
        str_lt(a.drop_first(), b.drop_first())
    }
}

/// `a < b` for lists of strings (`Vec<String>` order).
pub open spec fn list_lt(a: Seq<Seq<char>>, b: Seq<Seq<char>>) -> bool
    decreases a.len(),
{
    if a.len() == 0 {
        b.len() > 0
    } else if b.len() == 0 {
        false
    } else if a[0] != b[0] {
        str_lt(a[0], b[0])
    } else {
        list_lt(a.drop_first(), b.drop_first())
    }
}

/// Where `x` goes in `l` when inserted after every element not greater
/// than it, scanning from `i`.
pub open spec fn insert_pos_from(l: Seq<Seq<char>>, x: Seq<char>, i: int) -> int
    decreases l.len() - i,
{
    if i < 0 || i >= l.len() {
        l.len() as int
    } else if str_lt(x, l[i]) {
        i
    } else {
        insert_pos_from(l, x, i + 1)
    }
}

/// `l` with `x` inserted after every element not greater than it.
pub open spec fn insert_sorted(l: Seq<Seq<char>>, x: Seq<char>) -> Seq<Seq<char>> {
    l.insert(insert_pos_from(l, x, 0), x)
}

/// The elements of `l[i..]` inserted one by one into `acc`.
pub open spec fn sort_from(l: Seq<Seq<char>>, i: int, acc: Seq<Seq<char>>) -> Seq<Seq<char>>
    decreases l.len() - i,
{
    if i < 0 || i >= l.len() {
        acc
    } else {
        sort_from(l, i + 1, insert_sorted(acc, l[i]))
    }
}

/// `l` sorted (`slice::sort`).
pub open spec fn sort_spec(l: Seq<Seq<char>>) -> Seq<Seq<char>> {
    sort_from(l, 0, seq![])
}

/// Where `x` goes in `l` when kept unique: the first element equal to or
/// greater than it.
pub open spec fn unique_pos_from(l: Seq<Seq<char>>, x: Seq<char>, i: int) -> int
    decreases l.len() - i,
{
    if i < 0 || i >= l.len() {
        l.len() as int
    } else if l[i] == x || str_lt(x, l[i]) {
        i
    } else {
        unique_pos_from(l, x, i + 1)
    }
}

/// `l` with `x` inserted unless an equal element is already there.
pub open spec fn insert_unique(l: Seq<Seq<char>>, x: Seq<char>) -> Seq<Seq<char>> {
    let p = unique_pos_from(l, x, 0);
    if p < l.len() && l[p] == x {
        l
    } else {
        l.insert(p, x)
    }
}

pub open spec fn sort_unique_from(l: Seq<Seq<char>>, i: int, acc: Seq<Seq<char>>) -> Seq<
    Seq<char>,
>
    decreases l.len() - i,
{
    if i < 0 || i >= l.len() {
        acc
    } else {
        sort_unique_from(l, i + 1, insert_unique(acc, l[i]))
    }
}

/// `l` sorted with duplicates removed (`sort` then `dedup`).
pub open spec fn sort_unique(l: Seq<Seq<char>>) -> Seq<Seq<char>> {
    sort_unique_from(l, 0, seq![])
}

/// Where the list `x` goes among the lists `l`.
pub open spec fn list_pos_from(l: Seq<Seq<Seq<char>>>, x: Seq<Seq<char>>, i: int) -> int
    decreases l.len() - i,
{
    if i < 0 || i >= l.len() {
        l.len() as int
    } else if list_lt(x, l[i]) {
        i
    } else {
        list_pos_from(l, x, i + 1)
    }
}

pub open spec fn sort_lists_from(l: Seq<Seq<Seq<char>>>, i: int, acc: Seq<Seq<Seq<char>>>) -> Seq<
    Seq<Seq<char>>,
>
    decreases l.len() - i,
{
    if i < 0 || i >= l.len() {
        acc
    } else {
        sort_lists_from(l, i + 1, acc.insert(list_pos_from(acc, l[i], 0), l[i]))
    }
}

/// Lists of strings sorted (`Vec<Vec<String>>::sort`).
pub open spec fn sort_lists(l: Seq<Seq<Seq<char>>>) -> Seq<Seq<Seq<char>>> {
    sort_lists_from(l, 0, seq![])
}

// ---------------------------------------------------------------------------
// Laws of the order
// ---------------------------------------------------------------------------

/// Every element less than the next ones (what a `BTreeSet` iterates).
pub open spec fn strictly_sorted(l: Seq<Seq<char>>) -> bool {
    forall|i: int, j: int| 0 <= i < j < l.len() ==> #[trigger] str_lt(l[i], l[j])
}

/// No string is less than itself.
pub proof fn lemma_str_lt_irreflexive(a: Seq<char>)
    ensures
        !str_lt(a, a),
    decreases a.len(),
{
    if a.len() > 0 {
        lemma_str_lt_irreflexive(a.drop_first());
    }
}

/// The order on strings is transitive.
pub proof fn lemma_str_lt_transitive(a: Seq<char>, b: Seq<char>, c: Seq<char>)
    requires
        str_lt(a, b),
        str_lt(b, c),
    ensures
        str_lt(a, c),
    decreases a.len(),
{
    if a.len() > 0 && b.len() > 0 && c.len() > 0 {
        if a[0] == b[0] && b[0] == c[0] {
            lemma_str_lt_transitive(a.drop_first(), b.drop_first(), c.drop_first());
        }
    }
}

/// Of two different strings, one is less than the other.
pub proof fn lemma_str_lt_total(a: Seq<char>, b: Seq<char>)
    ensures
        a == b || str_lt(a, b) || str_lt(b, a),
    decreases a.len(),
{
    if a.len() > 0 && b.len() > 0 && a[0] == b[0] {
        lemma_str_lt_total(a.drop_first(), b.drop_first());
        if a.drop_first() == b.drop_first() {
            assert(a =~= seq![a[0]] + a.drop_first());
            assert(b =~= seq![b[0]] + b.drop_first());
        }
    } else if a.len() == 0 && b.len() == 0 {
        assert(a =~= b);
    } else if a.len() > 0 && b.len() > 0 {
        vstd::utf8::char_u32_cast(a[0], a[0] as u32);
        vstd::utf8::char_u32_cast(b[0], b[0] as u32);
        assert((a[0] as u32) != (b[0] as u32));
    }
}

/// Of two strings, at most one is less than the other.
pub proof fn lemma_str_lt_asymmetric(a: Seq<char>, b: Seq<char>)
    requires
        str_lt(a, b),
    ensures
        !str_lt(b, a),
{
    if str_lt(b, a) {
        lemma_str_lt_transitive(a, b, a);
        lemma_str_lt_irreflexive(a);
    }
}

/// Where a string goes among unique sorted strings: after every smaller one,
/// at an equal or greater one.
pub proof fn lemma_unique_pos(l: Seq<Seq<char>>, x: Seq<char>, i: int)
    requires
        0 <= i <= l.len(),
        forall|k: int| 0 <= k < i ==> str_lt(#[trigger] l[k], x),
    ensures
        i <= unique_pos_from(l, x, i) <= l.len(),
        forall|k: int| 0 <= k < unique_pos_from(l, x, i) ==> str_lt(#[trigger] l[k], x),
        unique_pos_from(l, x, i) < l.len() ==> (l[unique_pos_from(l, x, i)] == x || str_lt(
            x,
            l[unique_pos_from(l, x, i)],
        )),
    decreases l.len() - i,
{
    if i < l.len() && !(l[i] == x || str_lt(x, l[i])) {
        lemma_str_lt_total(l[i], x);
        lemma_unique_pos(l, x, i + 1);
    }
}

/// Inserting into a strictly sorted list keeps it strictly sorted and adds
/// exactly the inserted string.
pub proof fn lemma_insert_unique(l: Seq<Seq<char>>, x: Seq<char>)
    requires
        strictly_sorted(l),
    ensures
        strictly_sorted(insert_unique(l, x)),
        forall|y: Seq<char>| #[trigger] insert_unique(l, x).contains(y) <==> (l.contains(y) || y
            == x),
{
    lemma_unique_pos(l, x, 0);
    let p = unique_pos_from(l, x, 0);
    let r = insert_unique(l, x);
    if p < l.len() && l[p] == x {
        assert(r == l);
    } else {
        assert(r == l.insert(p, x));
        assert forall|i: int, j: int| 0 <= i < j < r.len() implies #[trigger] str_lt(r[i], r[j]) by {
            if j < p {
                assert(r[i] == l[i] && r[j] == l[j]);
            } else if j == p {
                assert(r[i] == l[i]);
            } else if i == p {
                assert(r[j] == l[j - 1]);
                if j - 1 > p {
                    assert(str_lt(l[p], l[j - 1]));
                    lemma_str_lt_transitive(x, l[p], l[j - 1]);
                }
            } else if i < p {
                assert(r[i] == l[i] && r[j] == l[j - 1]);
                if i < j - 1 {
                    assert(str_lt(l[i], l[j - 1]));
                } else {
                    assert(i == j - 1);
                    assert(false);
                }
            } else {
                assert(r[i] == l[i - 1] && r[j] == l[j - 1]);
            }
        }
        assert forall|y: Seq<char>| #[trigger] r.contains(y) <==> (l.contains(y) || y == x) by {
            if r.contains(y) {
                let k = choose|k: int| 0 <= k < r.len() && r[k] == y;
                if k < p {
                    assert(l[k] == y);
                } else if k > p {
                    assert(l[k - 1] == y);
                }
            }
            if l.contains(y) {
                let k = choose|k: int| 0 <= k < l.len() && l[k] == y;
                if k < p {
                    assert(r[k] == y);
                } else {
                    assert(r[k + 1] == y);
                }
            }
            if y == x {
                assert(r[p] == y);
            }
        }
    }
}

proof fn lemma_sort_unique_from(l: Seq<Seq<char>>, i: int, acc: Seq<Seq<char>>)
    requires
        0 <= i <= l.len(),
        strictly_sorted(acc),
    ensures
        strictly_sorted(sort_unique_from(l, i, acc)),
        forall|y: Seq<char>| #[trigger] sort_unique_from(l, i, acc).contains(y) <==> (acc.contains(
            y,
        ) || l.skip(i).contains(y)),
    decreases l.len() - i,
{
    if i < l.len() {
        lemma_insert_unique(acc, l[i]);
        lemma_sort_unique_from(l, i + 1, insert_unique(acc, l[i]));
        assert forall|y: Seq<char>| l.skip(i).contains(y) <==> (y == l[i] || l.skip(i + 1).contains(
            y,
        )) by {
            let s0 = l.skip(i);
            let s1 = l.skip(i + 1);
            if s0.contains(y) {
                let k = choose|k: int| 0 <= k < s0.len() && #[trigger] s0[k] == y;
                if k > 0 {
                    assert(s1[k - 1] == y);
                }
            }
            if s1.contains(y) {
                let k = choose|k: int| 0 <= k < s1.len() && #[trigger] s1[k] == y;
                assert(s0[k + 1] == y);
            }
            if y == l[i] {
                assert(l.skip(i)[0] == y);
            }
        }
    } else {
        assert(l.skip(i).len() == 0);
    }
}

/// Sorting with duplicates removed gives a strictly sorted list of exactly
/// the strings of the input (a `BTreeSet` collected from it).
pub proof fn lemma_sort_unique(l: Seq<Seq<char>>)
    ensures
        strictly_sorted(sort_unique(l)),
        forall|y: Seq<char>| #[trigger] sort_unique(l).contains(y) <==> l.contains(y),
{
    lemma_sort_unique_from(l, 0, seq![]);
    assert(l.skip(0) == l);
}

// ---------------------------------------------------------------------------
// Implementation
// ---------------------------------------------------------------------------

pub fn str_lt_exec(a: &[char], b: &[char]) -> (r: bool)
    ensures
        r == str_lt(a@, b@),
{
    let mut i: usize = 0;
    assert(a@.skip(0) == a@ && b@.skip(0) == b@);
    while i < a.len() && i < b.len()
        invariant
            i <= a.len(),
            i <= b.len(),
            str_lt(a@.skip(i as int), b@.skip(i as int)) == str_lt(a@, b@),
        decreases a.len() - i,
    {
        let ghost sa = a@.skip(i as int);
        let ghost sb = b@.skip(i as int);
        assert(sa[0] == a@[i as int] && sb[0] == b@[i as int]);
        if a[i] != b[i] {
            return (a[i] as u32) < (b[i] as u32);
        }
        assert(sa.drop_first() == a@.skip(i + 1));
        assert(sb.drop_first() == b@.skip(i + 1));
        i += 1;
    }
    a.len() - i == 0 && b.len() - i > 0
}

pub fn list_lt_exec(a: &Vec<Vec<char>>, b: &Vec<Vec<char>>) -> (r: bool)
    ensures
        r == list_lt(rows(a@), rows(b@)),
{
    let ghost ra = rows(a@);
    let ghost rb = rows(b@);
    let mut i: usize = 0;
    assert(ra.skip(0) == ra && rb.skip(0) == rb);
    while i < a.len() && i < b.len()
        invariant
            i <= a.len(),
            i <= b.len(),
            ra == rows(a@),
            rb == rows(b@),
            list_lt(ra.skip(i as int), rb.skip(i as int)) == list_lt(ra, rb),
        decreases a.len() - i,
    {
        let ghost sa = ra.skip(i as int);
        let ghost sb = rb.skip(i as int);
        assert(sa[0] == a@[i as int]@ && sb[0] == b@[i as int]@);
        if !crate::text::chars_eq(&a[i], &b[i]) {
            return str_lt_exec(&a[i], &b[i]);
        }
        assert(sa.drop_first() == ra.skip(i + 1));
        assert(sb.drop_first() == rb.skip(i + 1));
        i += 1;
    }
    a.len() - i == 0 && b.len() - i > 0
}

/// Inserts `x` after every element not greater than it.
pub fn insert_sorted_exec(l: &mut Vec<Vec<char>>, x: Vec<char>)
    ensures
        rows(final(l)@) == insert_sorted(rows(old(l)@), x@),
{
    let ghost r0 = rows(l@);
    let mut i: usize = 0;
    while i < l.len() && !str_lt_exec(&x, &l[i])
        invariant
            i <= l.len(),
            r0 == rows(l@),
            insert_pos_from(r0, x@, i as int) == insert_pos_from(r0, x@, 0),
        decreases l.len() - i,
    {
        i += 1;
    }
    let ghost xv = x@;
    l.insert(i, x);
    assert(rows(l@) =~= r0.insert(i as int, xv));
}

/// Inserts `x` unless an equal element is already there.
pub fn insert_unique_exec(l: &mut Vec<Vec<char>>, x: Vec<char>)
    ensures
        rows(final(l)@) == insert_unique(rows(old(l)@), x@),
{
    let ghost r0 = rows(l@);
    let mut i: usize = 0;
    while i < l.len() && !crate::text::chars_eq(&l[i], &x) && !str_lt_exec(&x, &l[i])
        invariant
            i <= l.len(),
            r0 == rows(l@),
            unique_pos_from(r0, x@, i as int) == unique_pos_from(r0, x@, 0),
        decreases l.len() - i,
    {
        i += 1;
    }
    if i < l.len() && crate::text::chars_eq(&l[i], &x) {
        return;
    }
    let ghost xv = x@;
    l.insert(i, x);
    assert(rows(l@) =~= r0.insert(i as int, xv));
}

/// Sorts a list of strings.
pub fn sort_exec(l: Vec<Vec<char>>) -> (r: Vec<Vec<char>>)
    ensures
        rows(r@) == sort_spec(rows(l@)),
{
    let ghost rl = rows(l@);
    let mut acc: Vec<Vec<char>> = Vec::new();
    let mut rest = l;
    let ghost mut i: int = 0;
    assert(rows(acc@) =~= Seq::<Seq<char>>::empty());
    assert(rows(rest@) =~= rl.skip(0));
    while rest.len() > 0
        invariant
            0 <= i <= rl.len(),
            rows(rest@) == rl.skip(i),
            sort_from(rl, i, rows(acc@)) == sort_spec(rl),
        decreases rest.len(),
    {
        let ghost before = rows(rest@);
        let ghost old_rest = rest@;
        assert(before.len() == rl.len() - i);
        assert(before[0] == rl[i]);
        let x = rest.remove(0);
        assert(x == old_rest[0]);
        assert(x@ == before[0]);
        assert(rows(rest@) =~= before.drop_first());
        assert(rows(rest@) =~= rl.skip(i + 1));
        insert_sorted_exec(&mut acc, x);
        proof {
            i = i + 1;
        }
    }
    acc
}

/// Sorts a list of strings and drops duplicates.
pub fn sort_unique_exec(l: &Vec<Vec<char>>) -> (r: Vec<Vec<char>>)
    ensures
        rows(r@) == sort_unique(rows(l@)),
{
    let ghost rl = rows(l@);
    let mut acc: Vec<Vec<char>> = Vec::new();
    let mut i: usize = 0;
    assert(rows(acc@) =~= Seq::<Seq<char>>::empty());
    while i < l.len()
        invariant
            i <= l.len(),
            rl == rows(l@),
            sort_unique_from(rl, i as int, rows(acc@)) == sort_unique(rl),
        decreases l.len() - i,
    {
        let x = crate::text::slice_range(&l[i], 0, l[i].len());
        assert(l[i as int]@.subrange(0, l[i as int]@.len() as int) == l[i as int]@);
        insert_unique_exec(&mut acc, x);
        i += 1;
    }
    acc
}

} // verus!

verus! {

/// The lists of strings held by a vector of vectors of character vectors.
pub open spec fn lists(v: Seq<Vec<Vec<char>>>) -> Seq<Seq<Seq<char>>> {
    v.map_values(|x: Vec<Vec<char>>| rows(x@))
}

/// Sorts lists of strings.
pub fn sort_lists_exec(l: Vec<Vec<Vec<char>>>) -> (r: Vec<Vec<Vec<char>>>)
    ensures
        lists(r@) == sort_lists(lists(l@)),
{
    let ghost rl = lists(l@);
    let mut acc: Vec<Vec<Vec<char>>> = Vec::new();
    let mut rest = l;
    let ghost mut i: int = 0;
    assert(lists(acc@) =~= Seq::<Seq<Seq<char>>>::empty());
    assert(lists(rest@) =~= rl.skip(0));
    while rest.len() > 0
        invariant
            0 <= i <= rl.len(),
            lists(rest@) == rl.skip(i),
            sort_lists_from(rl, i, lists(acc@)) == sort_lists(rl),
        decreases rest.len(),
    {
        let ghost before = lists(rest@);
        let ghost old_rest = rest@;
        assert(before.len() == rl.len() - i);
        assert(before[0] == rl[i]);
        let x = rest.remove(0);
        assert(x == old_rest[0]);
        assert(rows(x@) == rl[i]);
        assert(lists(rest@) =~= before.drop_first());
        assert(lists(rest@) =~= rl.skip(i + 1));
        let ghost a0 = lists(acc@);
        let mut k: usize = 0;
        while k < acc.len() && !list_lt_exec(&x, &acc[k])
            invariant
                k <= acc.len(),
                a0 == lists(acc@),
                list_pos_from(a0, rows(x@), k as int) == list_pos_from(a0, rows(x@), 0),
            decreases acc.len() - k,
        {
            k += 1;
        }
        let ghost xv = rows(x@);
        acc.insert(k, x);
        assert(lists(acc@) =~= a0.insert(k as int, xv));
        proof {
            i = i + 1;
        }
    }
    acc
}

} // verus!

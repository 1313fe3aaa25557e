//! Why the canonical form does not depend on the order of a card's
//! properties: sorting depends only on what is sorted; collecting two
//! neighbouring properties in either order gives the same lines and groups
//! up to order; and any reordering is a series of such exchanges.

use vstd::prelude::*;
use vstd::multiset::Multiset;
use vstd::relations::{sorted_by, total_ordering};
use super::canonical::{
    canonical_form_spec, concat_lines, header, canonical_line_spec, collect_from, is_excluded, labeled, merge_keyed,
};
use super::PropertyView;
use crate::text::lower_seq;
use super::order::{
    insert_pos_from, insert_sorted, insert_unique, lemma_insert_unique, lemma_str_lt_asymmetric,
    lemma_str_lt_irreflexive, lemma_str_lt_total, lemma_str_lt_transitive, lemma_unique_pos,
    list_lt, list_pos_from, sort_from, sort_lists, sort_lists_from, sort_spec, str_lt,
    strictly_sorted, unique_pos_from,
};

verus! {

// ---------------------------------------------------------------------------
// Sorting by insertion under a strict total order
// ---------------------------------------------------------------------------

/// `lt` is a strict total order: irreflexive, transitive, and any two
/// different elements are ordered one way or the other.
pub open spec fn strict_total_order<T>(lt: spec_fn(T, T) -> bool) -> bool {
    &&& forall|a: T| !#[trigger] lt(a, a)
    &&& forall|a: T, b: T, c: T| #[trigger] lt(a, b) && #[trigger] lt(b, c) ==> lt(a, c)
    &&& forall|a: T, b: T| a != b ==> lt(a, b) || #[trigger] lt(b, a)
}

/// Where `x` goes in `l` when inserted after every element it is not less
/// than, scanning from `i`.
pub open spec fn insert_pos_by<T>(l: Seq<T>, x: T, i: int, lt: spec_fn(T, T) -> bool) -> int
    decreases l.len() - i,
{
    if i < 0 || i >= l.len() {
        l.len() as int
    } else if lt(x, l[i]) {
        i
    } else {
        insert_pos_by(l, x, i + 1, lt)
    }
}

/// The elements of `l[i..]` inserted one by one into `acc`.
pub open spec fn sort_by_from<T>(l: Seq<T>, i: int, acc: Seq<T>, lt: spec_fn(T, T) -> bool) -> Seq<
    T,
>
    decreases l.len() - i,
{
    if i < 0 || i >= l.len() {
        acc
    } else {
        sort_by_from(l, i + 1, acc.insert(insert_pos_by(acc, l[i], 0, lt), l[i]), lt)
    }
}

/// `a` comes no later than `b` under `lt`.
pub open spec fn not_after<T>(lt: spec_fn(T, T) -> bool) -> spec_fn(T, T) -> bool {
    |a: T, b: T| !lt(b, a)
}

proof fn lemma_not_after_total<T>(lt: spec_fn(T, T) -> bool)
    requires
        strict_total_order(lt),
    ensures
        total_ordering(not_after(lt)),
{
    let leq = not_after(lt);
    assert forall|x: T, y: T| #[trigger] leq(x, y) && #[trigger] leq(y, x) implies x == y by {
        if x != y {
            assert(lt(x, y) || lt(y, x));
        }
    }
    assert forall|x: T, y: T, z: T| #[trigger] leq(x, y) && #[trigger] leq(y, z) implies leq(
        x,
        z,
    ) by {
        if lt(z, x) {
            if y != z {
                assert(lt(y, z) || lt(z, y));
            }
        }
    }
    assert forall|x: T, y: T| #[trigger] leq(x, y) || #[trigger] leq(y, x) by {
        if lt(y, x) && lt(x, y) {
            assert(lt(x, x));
        }
    }
}

proof fn lemma_insert_pos_by<T>(l: Seq<T>, x: T, i: int, lt: spec_fn(T, T) -> bool)
    requires
        0 <= i <= l.len(),
        forall|k: int| 0 <= k < i ==> !lt(x, #[trigger] l[k]),
    ensures
        i <= insert_pos_by(l, x, i, lt) <= l.len(),
        forall|k: int| 0 <= k < insert_pos_by(l, x, i, lt) ==> !lt(x, #[trigger] l[k]),
        insert_pos_by(l, x, i, lt) < l.len() ==> lt(x, l[insert_pos_by(l, x, i, lt)]),
    decreases l.len() - i,
{
    if i < l.len() && !lt(x, l[i]) {
        lemma_insert_pos_by(l, x, i + 1, lt);
    }
}

/// Inserting into a sorted list keeps it sorted and adds the element.
proof fn lemma_insert_sorted_by<T>(l: Seq<T>, x: T, lt: spec_fn(T, T) -> bool)
    requires
        strict_total_order(lt),
        sorted_by(l, not_after(lt)),
    ensures
        sorted_by(l.insert(insert_pos_by(l, x, 0, lt), x), not_after(lt)),
        l.insert(insert_pos_by(l, x, 0, lt), x).to_multiset() == l.to_multiset().insert(x),
{
    let leq = not_after(lt);
    lemma_insert_pos_by(l, x, 0, lt);
    let p = insert_pos_by(l, x, 0, lt);
    let r = l.insert(p, x);
    vstd::seq_lib::to_multiset_insert(l, p, x);
    assert forall|i: int, j: int| 0 <= i < j < r.len() implies #[trigger] leq(r[i], r[j]) by {
        if j < p {
            assert(r[i] == l[i] && r[j] == l[j]);
            assert(leq(l[i], l[j]));
        } else if j == p {
            assert(r[i] == l[i]);
            assert(!lt(x, l[i]));
        } else if i == p {
            assert(r[j] == l[j - 1]);
            assert(lt(x, l[p]));
            if j - 1 > p {
                assert(leq(l[p], l[j - 1]));
                if l[p] != l[j - 1] {
                    assert(lt(l[p], l[j - 1]) || lt(l[j - 1], l[p]));
                }
            }
            if lt(l[j - 1], x) {
                assert(lt(l[j - 1], l[p]));
                if j - 1 == p {
                    assert(lt(l[p], l[p]));
                }
            }
        } else if i < p {
            assert(r[i] == l[i] && r[j] == l[j - 1]);
            assert(leq(l[i], l[j - 1]));
        } else {
            assert(r[i] == l[i - 1] && r[j] == l[j - 1]);
            assert(leq(l[i - 1], l[j - 1]));
        }
    }
}

proof fn lemma_sort_by_from<T>(l: Seq<T>, i: int, acc: Seq<T>, lt: spec_fn(T, T) -> bool)
    requires
        strict_total_order(lt),
        0 <= i <= l.len(),
        sorted_by(acc, not_after(lt)),
    ensures
        sorted_by(sort_by_from(l, i, acc, lt), not_after(lt)),
        sort_by_from(l, i, acc, lt).to_multiset() == acc.to_multiset().add(l.skip(i).to_multiset()),
    decreases l.len() - i,
{
    broadcast use vstd::multiset::group_multiset_axioms;

    if i < l.len() {
        let next = acc.insert(insert_pos_by(acc, l[i], 0, lt), l[i]);
        lemma_insert_sorted_by(acc, l[i], lt);
        lemma_sort_by_from(l, i + 1, next, lt);
        assert(l.skip(i) =~= seq![l[i]] + l.skip(i + 1));
        vstd::seq_lib::lemma_multiset_commutative(seq![l[i]], l.skip(i + 1));
        assert(seq![l[i]].to_multiset() =~= Multiset::<T>::empty().insert(l[i])) by {
            assert(seq![l[i]] =~= Seq::<T>::empty().push(l[i]));
            vstd::seq_lib::to_multiset_build(Seq::<T>::empty(), l[i]);
            assert(Seq::<T>::empty().to_multiset() =~= Multiset::<T>::empty()) by {
                broadcast use vstd::seq_lib::group_to_multiset_ensures;
            }
        }
        assert(sort_by_from(l, i, acc, lt).to_multiset() =~= acc.to_multiset().add(
            l.skip(i).to_multiset(),
        ));
    } else {
        assert(l.skip(i) =~= Seq::<T>::empty());
        assert(l.skip(i).to_multiset() =~= Multiset::<T>::empty()) by {
            broadcast use vstd::seq_lib::group_to_multiset_ensures;
        }
        assert(sort_by_from(l, i, acc, lt).to_multiset() =~= acc.to_multiset().add(
            l.skip(i).to_multiset(),
        ));
    }
}

/// Sorting by insertion gives a sorted list with the same elements, so it
/// depends only on what is sorted: lists with the same elements sort alike.
proof fn lemma_sort_by_elements_under<T>(a: Seq<T>, b: Seq<T>, lt: spec_fn(T, T) -> bool)
    requires
        strict_total_order(lt),
        a.to_multiset() == b.to_multiset(),
    ensures
        sort_by_from(a, 0, seq![], lt) == sort_by_from(b, 0, seq![], lt),
{
    broadcast use vstd::multiset::group_multiset_axioms;

    assert(sorted_by(Seq::<T>::empty(), not_after(lt)));
    lemma_sort_by_from(a, 0, seq![], lt);
    lemma_sort_by_from(b, 0, seq![], lt);
    assert(a.skip(0) == a);
    assert(b.skip(0) == b);
    assert(Seq::<T>::empty().to_multiset() =~= Multiset::<T>::empty()) by {
        broadcast use vstd::seq_lib::group_to_multiset_ensures;
    }
    assert(sort_by_from(a, 0, seq![], lt).to_multiset() =~= a.to_multiset());
    assert(sort_by_from(b, 0, seq![], lt).to_multiset() =~= b.to_multiset());
    lemma_not_after_total(lt);
    vstd::seq_lib::lemma_sorted_unique(
        sort_by_from(a, 0, seq![], lt),
        sort_by_from(b, 0, seq![], lt),
        not_after(lt),
    );
}

// ---------------------------------------------------------------------------
// The two sorts of the canonical form
// ---------------------------------------------------------------------------

/// The order on strings, as a value.
pub open spec fn str_order() -> spec_fn(Seq<char>, Seq<char>) -> bool {
    |a: Seq<char>, b: Seq<char>| str_lt(a, b)
}

/// The order on lists of strings, as a value.
pub open spec fn list_order() -> spec_fn(Seq<Seq<char>>, Seq<Seq<char>>) -> bool {
    |a: Seq<Seq<char>>, b: Seq<Seq<char>>| list_lt(a, b)
}

proof fn lemma_str_order_total()
    ensures
        strict_total_order(str_order()),
{
    let lt = str_order();
    assert forall|a: Seq<char>| !#[trigger] lt(a, a) by {
        lemma_str_lt_irreflexive(a);
    }
    assert forall|a: Seq<char>, b: Seq<char>, c: Seq<char>| #[trigger] lt(a, b) && #[trigger] lt(
        b,
        c,
    ) implies lt(a, c) by {
        lemma_str_lt_transitive(a, b, c);
    }
    assert forall|a: Seq<char>, b: Seq<char>| a != b implies lt(a, b) || #[trigger] lt(b, a) by {
        lemma_str_lt_total(a, b);
    }
}

proof fn lemma_list_lt_irreflexive(a: Seq<Seq<char>>)
    ensures
        !list_lt(a, a),
    decreases a.len(),
{
    if a.len() > 0 {
        lemma_list_lt_irreflexive(a.drop_first());
    }
}

proof fn lemma_list_lt_transitive(a: Seq<Seq<char>>, b: Seq<Seq<char>>, c: Seq<Seq<char>>)
    requires
        list_lt(a, b),
        list_lt(b, c),
    ensures
        list_lt(a, c),
    decreases a.len(),
{
    if a.len() > 0 && b.len() > 0 && c.len() > 0 {
        if a[0] == b[0] && b[0] == c[0] {
            lemma_list_lt_transitive(a.drop_first(), b.drop_first(), c.drop_first());
        } else if a[0] == b[0] {
        } else if b[0] == c[0] {
        } else {
            lemma_str_lt_transitive(a[0], b[0], c[0]);
            if a[0] == c[0] {
                lemma_str_lt_asymmetric(a[0], b[0]);
            }
        }
    }
}

proof fn lemma_list_lt_total(a: Seq<Seq<char>>, b: Seq<Seq<char>>)
    ensures
        a == b || list_lt(a, b) || list_lt(b, a),
    decreases a.len(),
{
    if a.len() > 0 && b.len() > 0 && a[0] == b[0] {
        lemma_list_lt_total(a.drop_first(), b.drop_first());
        if a.drop_first() == b.drop_first() {
            assert(a =~= seq![a[0]] + a.drop_first());
            assert(b =~= seq![b[0]] + b.drop_first());
        }
    } else if a.len() == 0 && b.len() == 0 {
        assert(a =~= b);
    } else if a.len() > 0 && b.len() > 0 {
        lemma_str_lt_total(a[0], b[0]);
    }
}

proof fn lemma_list_order_total()
    ensures
        strict_total_order(list_order()),
{
    let lt = list_order();
    assert forall|a: Seq<Seq<char>>| !#[trigger] lt(a, a) by {
        lemma_list_lt_irreflexive(a);
    }
    assert forall|a: Seq<Seq<char>>, b: Seq<Seq<char>>, c: Seq<Seq<char>>| #[trigger] lt(a, b)
        && #[trigger] lt(b, c) implies lt(a, c) by {
        lemma_list_lt_transitive(a, b, c);
    }
    assert forall|a: Seq<Seq<char>>, b: Seq<Seq<char>>| a != b implies lt(a, b) || #[trigger] lt(
        b,
        a,
    ) by {
        lemma_list_lt_total(a, b);
    }
}

proof fn lemma_str_pos(l: Seq<Seq<char>>, x: Seq<char>, i: int)
    ensures
        insert_pos_from(l, x, i) == insert_pos_by(l, x, i, str_order()),
    decreases l.len() - i,
{
    if 0 <= i < l.len() {
        lemma_str_pos(l, x, i + 1);
    }
}

proof fn lemma_str_sort(l: Seq<Seq<char>>, i: int, acc: Seq<Seq<char>>)
    ensures
        sort_from(l, i, acc) == sort_by_from(l, i, acc, str_order()),
    decreases l.len() - i,
{
    if 0 <= i < l.len() {
        lemma_str_pos(acc, l[i], 0);
        lemma_str_sort(l, i + 1, insert_sorted(acc, l[i]));
    }
}

proof fn lemma_list_pos(l: Seq<Seq<Seq<char>>>, x: Seq<Seq<char>>, i: int)
    ensures
        list_pos_from(l, x, i) == insert_pos_by(l, x, i, list_order()),
    decreases l.len() - i,
{
    if 0 <= i < l.len() {
        lemma_list_pos(l, x, i + 1);
    }
}

proof fn lemma_list_sort(l: Seq<Seq<Seq<char>>>, i: int, acc: Seq<Seq<Seq<char>>>)
    ensures
        sort_lists_from(l, i, acc) == sort_by_from(l, i, acc, list_order()),
    decreases l.len() - i,
{
    if 0 <= i < l.len() {
        lemma_list_pos(acc, l[i], 0);
        lemma_list_sort(l, i + 1, acc.insert(list_pos_from(acc, l[i], 0), l[i]));
    }
}

/// Sorting depends only on what is sorted, not on its order: lists with the
/// same elements sort to the same list.
pub proof fn lemma_sort_by_elements(a: Seq<Seq<char>>, b: Seq<Seq<char>>)
    requires
        a.to_multiset() == b.to_multiset(),
    ensures
        sort_spec(a) == sort_spec(b),
{
    lemma_str_order_total();
    lemma_str_sort(a, 0, seq![]);
    lemma_str_sort(b, 0, seq![]);
    lemma_sort_by_elements_under(a, b, str_order());
}

/// The same for sorting lists of strings.
pub proof fn lemma_sort_lists_by_elements(a: Seq<Seq<Seq<char>>>, b: Seq<Seq<Seq<char>>>)
    requires
        a.to_multiset() == b.to_multiset(),
    ensures
        sort_lists(a) == sort_lists(b),
{
    lemma_list_order_total();
    lemma_list_sort(a, 0, seq![]);
    lemma_list_sort(b, 0, seq![]);
    lemma_sort_by_elements_under(a, b, list_order());
}

// ---------------------------------------------------------------------------
// Merging into keyed lists
// ---------------------------------------------------------------------------

/// The scan for `x` stops at `q` when everything before `q` is smaller than
/// `x` and `q` holds `x` or something greater.
proof fn lemma_unique_pos_at(l: Seq<Seq<char>>, x: Seq<char>, q: int, i: int)
    requires
        0 <= i <= q <= l.len(),
        forall|k: int| 0 <= k < q ==> str_lt(#[trigger] l[k], x),
        q < l.len() ==> (l[q] == x || str_lt(x, l[q])),
    ensures
        unique_pos_from(l, x, i) == q,
    decreases q - i,
{
    if i < q {
        lemma_str_lt_irreflexive(x);
        lemma_str_lt_asymmetric(l[i], x);
        lemma_unique_pos_at(l, x, q, i + 1);
    }
}

/// Merging items under a key keeps the keys sorted and unique, and one list
/// per key.
pub(crate) proof fn lemma_merge_keeps(
    keys: Seq<Seq<char>>,
    vals: Seq<Seq<Seq<char>>>,
    key: Seq<char>,
    items: Seq<Seq<char>>,
)
    requires
        strictly_sorted(keys),
        keys.len() == vals.len(),
    ensures
        merge_keyed(keys, vals, key, items).0 == insert_unique(keys, key),
        strictly_sorted(merge_keyed(keys, vals, key, items).0),
        merge_keyed(keys, vals, key, items).0.len() == merge_keyed(keys, vals, key, items).1.len(),
{
    lemma_unique_pos(keys, key, 0);
    lemma_insert_unique(keys, key);
}

/// Merging twice under one key: the key sits where the first merge put it,
/// and the second merge appends to that list.
proof fn lemma_merge_twice(
    keys: Seq<Seq<char>>,
    vals: Seq<Seq<Seq<char>>>,
    key: Seq<char>,
    a: Seq<Seq<char>>,
    b: Seq<Seq<char>>,
)
    requires
        keys.len() == vals.len(),
    ensures
        ({
            let p = unique_pos_from(keys, key, 0);
            let m1 = merge_keyed(keys, vals, key, a);
            let m2 = merge_keyed(m1.0, m1.1, key, b);
            &&& 0 <= p < m1.0.len()
            &&& m1.0[p] == key
            &&& m2.0 == m1.0
            &&& m2.1 == m1.1.update(p, m1.1[p] + b)
        }),
{
    lemma_unique_pos(keys, key, 0);
    let p = unique_pos_from(keys, key, 0);
    let m1 = merge_keyed(keys, vals, key, a);
    if p < keys.len() && keys[p] == key {
        lemma_unique_pos_at(m1.0, key, p, 0);
    } else {
        assert forall|k: int| 0 <= k < p implies str_lt(#[trigger] m1.0[k], key) by {
            assert(m1.0[k] == keys[k]);
        }
        lemma_unique_pos_at(m1.0, key, p, 0);
    }
}

/// Merging under two different keys gives the same keys and lists in
/// either order.
proof fn lemma_merge_commute(
    keys: Seq<Seq<char>>,
    vals: Seq<Seq<Seq<char>>>,
    g1: Seq<char>,
    a: Seq<Seq<char>>,
    g2: Seq<char>,
    b: Seq<Seq<char>>,
)
    requires
        strictly_sorted(keys),
        keys.len() == vals.len(),
        str_lt(g1, g2),
    ensures
        ({
            let m1 = merge_keyed(keys, vals, g1, a);
            let m2 = merge_keyed(keys, vals, g2, b);
            merge_keyed(m1.0, m1.1, g2, b) == merge_keyed(m2.0, m2.1, g1, a)
        }),
{
    lemma_unique_pos(keys, g1, 0);
    lemma_unique_pos(keys, g2, 0);
    lemma_str_lt_asymmetric(g1, g2);
    lemma_str_lt_irreflexive(g1);
    let p1 = unique_pos_from(keys, g1, 0);
    let p2 = unique_pos_from(keys, g2, 0);
    let f1 = p1 < keys.len() && keys[p1] == g1;
    let f2 = p2 < keys.len() && keys[p2] == g2;
    // g1 goes no later than g2
    if p2 < p1 {
        assert(str_lt(keys[p2], g1));
        if keys[p2] != g2 {
            lemma_str_lt_transitive(g2, keys[p2], g1);
        }
        assert(false);
    }
    if p1 == p2 && f1 {
        assert(false);
    }
    let m1 = merge_keyed(keys, vals, g1, a);
    let m2 = merge_keyed(keys, vals, g2, b);
    // where g2 goes after g1 was merged
    let q2 = if f1 {
        p2
    } else {
        p2 + 1
    };
    assert forall|k: int| 0 <= k < q2 implies str_lt(#[trigger] m1.0[k], g2) by {
        if !f1 && k == p1 {
        } else if !f1 && k > p1 {
            assert(m1.0[k] == keys[k - 1]);
        } else {
            assert(m1.0[k] == keys[k]);
        }
    }
    if q2 < m1.0.len() {
        if f1 {
            assert(m1.0[q2] == keys[p2]);
        } else {
            assert(m1.0[q2] == keys[p2]);
        }
    }
    lemma_unique_pos_at(m1.0, g2, q2, 0);
    // where g1 goes after g2 was merged
    assert forall|k: int| 0 <= k < p1 implies str_lt(#[trigger] m2.0[k], g1) by {
        assert(m2.0[k] == keys[k]);
    }
    if p1 < m2.0.len() {
        if p1 < p2 || f2 {
            assert(m2.0[p1] == keys[p1]);
        } else {
            assert(m2.0[p1] == g2);
        }
    }
    lemma_unique_pos_at(m2.0, g1, p1, 0);
    let r1 = merge_keyed(m1.0, m1.1, g2, b);
    let r2 = merge_keyed(m2.0, m2.1, g1, a);
    if !f2 {
        assert(!(q2 < m1.0.len() && m1.0[q2] == g2));
    }
    if !f1 {
        assert(!(p1 < m2.0.len() && m2.0[p1] == g1));
    }
    assert(r1.0 =~= r2.0);
    assert(r1.1 =~= r2.1);
}


// ---------------------------------------------------------------------------
// Collecting properties
// ---------------------------------------------------------------------------

/// Ungrouped lines, group names in order, and the lines of each group.
pub type Collected = (Seq<Seq<char>>, Seq<Seq<char>>, Seq<Seq<Seq<char>>>);

/// What collecting one property adds.
pub open spec fn collect_step(x: bool, p: PropertyView, s: Collected) -> Collected {
    if is_excluded(p, x) {
        s
    } else {
        let line = canonical_line_spec(p);
        match p.group {
            Some(g) => {
                let m = merge_keyed(s.1, s.2, lower_seq(g), seq![line]);
                (s.0, m.0, m.1)
            },
            None => (s.0.push(line), s.1, s.2),
        }
    }
}

/// Group names sorted and unique, one list of lines per name.
pub open spec fn well_kept(s: Collected) -> bool {
    strictly_sorted(s.1) && s.1.len() == s.2.len()
}

/// The same lines and the same groups, each up to order.
pub open spec fn same_up_to_order(a: Collected, b: Collected) -> bool {
    &&& a.0.to_multiset() == b.0.to_multiset()
    &&& a.1 == b.1
    &&& a.2.len() == b.2.len()
    &&& forall|k: int| 0 <= k < a.2.len() ==> #[trigger] a.2[k].to_multiset() == b.2[k].to_multiset()
}

/// The result of collecting `ps[i..]` into `s`.
pub open spec fn collect_rest(ps: Seq<PropertyView>, x: bool, i: int, s: Collected) -> Collected {
    collect_from(ps, x, i, s.0, s.1, s.2)
}

pub(crate) proof fn lemma_collect_unfold(ps: Seq<PropertyView>, x: bool, i: int, s: Collected)
    requires
        0 <= i < ps.len(),
    ensures
        collect_rest(ps, x, i, s) == collect_rest(ps, x, i + 1, collect_step(x, ps[i], s)),
{
}

proof fn lemma_step_keeps(x: bool, p: PropertyView, s: Collected)
    requires
        well_kept(s),
    ensures
        well_kept(collect_step(x, p, s)),
{
    if !is_excluded(p, x) {
        if let Some(g) = p.group {
            lemma_merge_keeps(s.1, s.2, lower_seq(g), seq![canonical_line_spec(p)]);
        }
    }
}

proof fn lemma_push_multiset(a: Seq<Seq<char>>, b: Seq<Seq<char>>, line: Seq<char>)
    requires
        a.to_multiset() == b.to_multiset(),
    ensures
        a.push(line).to_multiset() == b.push(line).to_multiset(),
{
    vstd::seq_lib::to_multiset_build(a, line);
    vstd::seq_lib::to_multiset_build(b, line);
}

proof fn lemma_step_respects(x: bool, p: PropertyView, a: Collected, b: Collected)
    requires
        well_kept(a),
        well_kept(b),
        same_up_to_order(a, b),
    ensures
        same_up_to_order(collect_step(x, p, a), collect_step(x, p, b)),
{
    if !is_excluded(p, x) {
        let line = canonical_line_spec(p);
        match p.group {
            Some(g) => {
                let key = lower_seq(g);
                let items = seq![line];
                lemma_unique_pos(a.1, key, 0);
                let q = unique_pos_from(a.1, key, 0);
                let ma = merge_keyed(a.1, a.2, key, items);
                let mb = merge_keyed(b.1, b.2, key, items);
                if q < a.1.len() && a.1[q] == key {
                    assert forall|k: int| 0 <= k < ma.1.len() implies #[trigger] ma.1[k].to_multiset()
                        == mb.1[k].to_multiset() by {
                        if k == q {
                            vstd::seq_lib::lemma_multiset_commutative(a.2[q], items);
                            vstd::seq_lib::lemma_multiset_commutative(b.2[q], items);
                            assert(a.2[q].to_multiset() == b.2[q].to_multiset());
                        } else {
                            assert(a.2[k].to_multiset() == b.2[k].to_multiset());
                        }
                    }
                } else {
                    assert forall|k: int| 0 <= k < ma.1.len() implies #[trigger] ma.1[k].to_multiset()
                        == mb.1[k].to_multiset() by {
                        if k < q {
                            assert(a.2[k].to_multiset() == b.2[k].to_multiset());
                        } else if k > q {
                            assert(a.2[k - 1].to_multiset() == b.2[k - 1].to_multiset());
                        }
                    }
                }
            },
            None => {
                lemma_push_multiset(a.0, b.0, line);
            },
        }
    }
}

/// Collecting the same properties into states equal up to order gives
/// results equal up to order.
proof fn lemma_collect_respects(
    ps: Seq<PropertyView>,
    qs: Seq<PropertyView>,
    x: bool,
    i: int,
    a: Collected,
    b: Collected,
)
    requires
        0 <= i <= ps.len(),
        ps.len() == qs.len(),
        forall|k: int| i <= k < ps.len() ==> ps[k] == qs[k],
        well_kept(a),
        well_kept(b),
        same_up_to_order(a, b),
    ensures
        same_up_to_order(collect_rest(ps, x, i, a), collect_rest(qs, x, i, b)),
    decreases ps.len() - i,
{
    if i < ps.len() {
        lemma_collect_unfold(ps, x, i, a);
        lemma_collect_unfold(qs, x, i, b);
        lemma_step_keeps(x, ps[i], a);
        lemma_step_keeps(x, ps[i], b);
        lemma_step_respects(x, ps[i], a, b);
        lemma_collect_respects(ps, qs, x, i + 1, collect_step(x, ps[i], a), collect_step(x, ps[i], b));
    }
}


proof fn lemma_same_reflexive(a: Collected)
    ensures
        same_up_to_order(a, a),
{
}

/// Collecting two properties in either order gives the same lines and
/// groups up to order.
proof fn lemma_step_commute(x: bool, p: PropertyView, q: PropertyView, s: Collected)
    requires
        well_kept(s),
    ensures
        same_up_to_order(
            collect_step(x, q, collect_step(x, p, s)),
            collect_step(x, p, collect_step(x, q, s)),
        ),
{
    let pq = collect_step(x, q, collect_step(x, p, s));
    let qp = collect_step(x, p, collect_step(x, q, s));
    if is_excluded(p, x) || is_excluded(q, x) {
        lemma_same_reflexive(pq);
    } else {
        let lp = canonical_line_spec(p);
        let lq = canonical_line_spec(q);
        match (p.group, q.group) {
            (None, None) => {
                vstd::seq_lib::to_multiset_build(s.0, lp);
                vstd::seq_lib::to_multiset_build(s.0.push(lp), lq);
                vstd::seq_lib::to_multiset_build(s.0, lq);
                vstd::seq_lib::to_multiset_build(s.0.push(lq), lp);
                assert(pq.0.to_multiset() =~= qp.0.to_multiset());
            },
            (Some(g), None) => {
                assert(pq == qp);
                lemma_same_reflexive(pq);
            },
            (None, Some(g)) => {
                assert(pq == qp);
                lemma_same_reflexive(pq);
            },
            (Some(g), Some(h)) => {
                let kg = lower_seq(g);
                let kh = lower_seq(h);
                if kg == kh {
                    let a = seq![lp];
                    let b = seq![lq];
                    lemma_merge_twice(s.1, s.2, kg, a, b);
                    lemma_merge_twice(s.1, s.2, kg, b, a);
                    let p0 = unique_pos_from(s.1, kg, 0);
                    let m1 = merge_keyed(s.1, s.2, kg, a);
                    let n1 = merge_keyed(s.1, s.2, kg, b);
                    assert(m1.0 == n1.0);
                    assert(pq.2 == m1.1.update(p0, m1.1[p0] + b));
                    assert(qp.2 == n1.1.update(p0, n1.1[p0] + a));
                    lemma_unique_pos(s.1, kg, 0);
                    if !(p0 < s.1.len() && s.1[p0] == kg) {
                        assert(m1.1[p0] == a);
                        assert(n1.1[p0] == b);
                    }
                    assert forall|k: int| 0 <= k < pq.2.len() implies #[trigger] pq.2[k].to_multiset()
                        == qp.2[k].to_multiset() by {
                        if k == p0 {
                            if p0 < s.1.len() && s.1[p0] == kg {
                                assert(pq.2[k] == s.2[p0] + a + b);
                                assert(qp.2[k] == s.2[p0] + b + a);
                                vstd::seq_lib::lemma_multiset_commutative(s.2[p0] + a, b);
                                vstd::seq_lib::lemma_multiset_commutative(s.2[p0] + b, a);
                                vstd::seq_lib::lemma_multiset_commutative(s.2[p0], a);
                                vstd::seq_lib::lemma_multiset_commutative(s.2[p0], b);
                                broadcast use vstd::multiset::group_multiset_axioms;
                                assert(pq.2[k].to_multiset() =~= qp.2[k].to_multiset());
                            } else {
                                assert(pq.2[k] == a + b);
                                assert(qp.2[k] == b + a);
                                vstd::seq_lib::lemma_multiset_commutative(a, b);
                                vstd::seq_lib::lemma_multiset_commutative(b, a);
                                broadcast use vstd::multiset::group_multiset_axioms;
                                assert(pq.2[k].to_multiset() =~= qp.2[k].to_multiset());
                            }
                        } else {
                            assert(pq.2[k] == qp.2[k]);
                        }
                    }
                } else {
                    lemma_str_lt_total(kg, kh);
                    if str_lt(kg, kh) {
                        lemma_merge_commute(s.1, s.2, kg, seq![lp], kh, seq![lq]);
                    } else {
                        lemma_merge_commute(s.1, s.2, kh, seq![lq], kg, seq![lp]);
                    }
                    assert(pq == qp);
                    lemma_same_reflexive(pq);
                }
            },
        }
    }
}


proof fn lemma_same_transitive(a: Collected, b: Collected, c: Collected)
    requires
        same_up_to_order(a, b),
        same_up_to_order(b, c),
    ensures
        same_up_to_order(a, c),
{
    assert forall|k: int| 0 <= k < a.2.len() implies #[trigger] a.2[k].to_multiset()
        == c.2[k].to_multiset() by {
        assert(a.2[k].to_multiset() == b.2[k].to_multiset());
        assert(b.2[k].to_multiset() == c.2[k].to_multiset());
    }
}

/// `ps` with the properties at `i` and `i + 1` exchanged.
pub open spec fn swap_next(ps: Seq<PropertyView>, i: int) -> Seq<PropertyView> {
    ps.update(i, ps[i + 1]).update(i + 1, ps[i])
}

proof fn lemma_swap_from(ps: Seq<PropertyView>, x: bool, i: int, j: int, s: Collected)
    requires
        0 <= j <= i,
        i + 1 < ps.len(),
        well_kept(s),
    ensures
        same_up_to_order(collect_rest(ps, x, j, s), collect_rest(swap_next(ps, i), x, j, s)),
    decreases i - j,
{
    let qs = swap_next(ps, i);
    lemma_collect_unfold(ps, x, j, s);
    lemma_collect_unfold(qs, x, j, s);
    lemma_step_keeps(x, ps[j], s);
    if j < i {
        assert(qs[j] == ps[j]);
        lemma_swap_from(ps, x, i, j + 1, collect_step(x, ps[j], s));
    } else {
        let p = ps[i];
        let q = ps[i + 1];
        assert(qs[i] == q && qs[i + 1] == p);
        let sp = collect_step(x, p, s);
        let sq = collect_step(x, q, s);
        lemma_step_keeps(x, q, s);
        lemma_step_keeps(x, q, sp);
        lemma_step_keeps(x, p, sq);
        lemma_collect_unfold(ps, x, i + 1, sp);
        lemma_collect_unfold(qs, x, i + 1, sq);
        lemma_step_commute(x, p, q, s);
        lemma_collect_respects(
            ps,
            qs,
            x,
            i + 2,
            collect_step(x, q, sp),
            collect_step(x, p, sq),
        );
    }
}

/// Moving the property at `j` to the front does not change what is
/// collected, up to order.
proof fn lemma_move_to_front(ps: Seq<PropertyView>, x: bool, j: int, s: Collected)
    requires
        0 <= j < ps.len(),
        well_kept(s),
    ensures
        same_up_to_order(
            collect_rest(ps, x, 0, s),
            collect_rest(ps.remove(j).insert(0, ps[j]), x, 0, s),
        ),
    decreases j,
{
    if j == 0 {
        assert(ps.remove(0).insert(0, ps[0]) =~= ps);
        lemma_same_reflexive(collect_rest(ps, x, 0, s));
    } else {
        let qs = swap_next(ps, j - 1);
        lemma_swap_from(ps, x, j - 1, 0, s);
        lemma_move_to_front(qs, x, j - 1, s);
        assert(qs.remove(j - 1).insert(0, qs[j - 1]) =~= ps.remove(j).insert(0, ps[j]));
        lemma_same_transitive(
            collect_rest(ps, x, 0, s),
            collect_rest(qs, x, 0, s),
            collect_rest(ps.remove(j).insert(0, ps[j]), x, 0, s),
        );
    }
}

proof fn lemma_collect_shift(ps: Seq<PropertyView>, x: bool, i: int, s: Collected)
    requires
        1 <= i <= ps.len(),
    ensures
        collect_rest(ps, x, i, s) == collect_rest(ps.drop_first(), x, i - 1, s),
    decreases ps.len() - i,
{
    if i < ps.len() {
        lemma_collect_unfold(ps, x, i, s);
        lemma_collect_unfold(ps.drop_first(), x, i - 1, s);
        lemma_collect_shift(ps, x, i + 1, collect_step(x, ps[i], s));
    }
}

/// Properties that are the same up to order are collected into the same
/// lines and groups, up to order.
proof fn lemma_collect_permutation(
    ps: Seq<PropertyView>,
    qs: Seq<PropertyView>,
    x: bool,
    s: Collected,
)
    requires
        ps.to_multiset() == qs.to_multiset(),
        well_kept(s),
    ensures
        same_up_to_order(collect_rest(ps, x, 0, s), collect_rest(qs, x, 0, s)),
    decreases ps.len(),
{
    broadcast use vstd::seq_lib::group_to_multiset_ensures;

    if ps.len() == 0 {
        vstd::seq_lib::to_multiset_len(ps);
        vstd::seq_lib::to_multiset_len(qs);
        assert(qs.len() == 0);
        lemma_same_reflexive(s);
    } else {
        let p = ps[0];
        assert(ps.to_multiset().count(p) > 0);
        assert(qs.contains(p));
        let j = choose|j: int| 0 <= j < qs.len() && qs[j] == p;
        let moved = qs.remove(j).insert(0, p);
        lemma_move_to_front(qs, x, j, s);
        let t = collect_step(x, p, s);
        lemma_step_keeps(x, p, s);
        lemma_collect_unfold(ps, x, 0, s);
        lemma_collect_unfold(moved, x, 0, s);
        lemma_collect_shift(ps, x, 1, t);
        lemma_collect_shift(moved, x, 1, t);
        assert(moved.drop_first() =~= qs.remove(j));
        assert(ps.drop_first() =~= ps.remove(0));
        vstd::seq_lib::to_multiset_remove(ps, 0);
        vstd::seq_lib::to_multiset_remove(qs, j);
        lemma_collect_permutation(ps.drop_first(), qs.remove(j), x, t);
        lemma_same_transitive(
            collect_rest(ps, x, 0, s),
            collect_rest(moved, x, 0, s),
            collect_rest(qs, x, 0, s),
        );
    }
}


/// A property with its place in the card (byte range and line) left out.
pub open spec fn without_position(p: PropertyView) -> PropertyView {
    PropertyView {
        start: 0,
        end: 0,
        line: 0,
        group: p.group,
        name: p.name,
        params: p.params,
        value: p.value,
    }
}

proof fn lemma_collect_ignores_position(ps: Seq<PropertyView>, x: bool, i: int, s: Collected)
    requires
        0 <= i <= ps.len(),
    ensures
        collect_rest(ps, x, i, s) == collect_rest(
            ps.map_values(|p: PropertyView| without_position(p)),
            x,
            i,
            s,
        ),
    decreases ps.len() - i,
{
    let nps = ps.map_values(|p: PropertyView| without_position(p));
    if i < ps.len() {
        lemma_collect_unfold(ps, x, i, s);
        lemma_collect_unfold(nps, x, i, s);
        assert(nps[i] == without_position(ps[i]));
        assert(collect_step(x, ps[i], s) == collect_step(x, nps[i], s));
        lemma_collect_ignores_position(ps, x, i + 1, collect_step(x, ps[i], s));
    }
}

/// The sorted lines of a canonical form, from what was collected.
pub open spec fn sorted_lines(c: Collected) -> Seq<Seq<char>> {
    sort_spec(c.0 + labeled(sort_lists(c.2.map_values(|m: Seq<Seq<char>>| sort_spec(m)))))
}

proof fn lemma_sorted_lines_same(a: Collected, b: Collected)
    requires
        same_up_to_order(a, b),
    ensures
        sorted_lines(a) == sorted_lines(b),
{
    let sa = a.2.map_values(|m: Seq<Seq<char>>| sort_spec(m));
    let sb = b.2.map_values(|m: Seq<Seq<char>>| sort_spec(m));
    assert forall|k: int| 0 <= k < sa.len() implies sa[k] == sb[k] by {
        lemma_sort_by_elements(a.2[k], b.2[k]);
    }
    assert(sa =~= sb);
    let l = labeled(sort_lists(sa));
    vstd::seq_lib::lemma_multiset_commutative(a.0, l);
    vstd::seq_lib::lemma_multiset_commutative(b.0, l);
    lemma_sort_by_elements(a.0 + l, b.0 + l);
}

/// The canonical form does not depend on the order of a card's properties,
/// nor on where in the card each one stands: properties that are the same
/// up to order give the same canonical form.
pub proof fn lemma_canonical_form_reorder(ps: Seq<PropertyView>, qs: Seq<PropertyView>, x: bool)
    requires
        ps.map_values(|p: PropertyView| without_position(p)).to_multiset() == qs.map_values(
            |p: PropertyView| without_position(p),
        ).to_multiset(),
    ensures
        canonical_form_spec(ps, x) == canonical_form_spec(qs, x),
{
    let init: Collected = (seq![], seq![], seq![]);
    let nps = ps.map_values(|p: PropertyView| without_position(p));
    let nqs = qs.map_values(|p: PropertyView| without_position(p));
    lemma_collect_ignores_position(ps, x, 0, init);
    lemma_collect_ignores_position(qs, x, 0, init);
    lemma_collect_permutation(nps, nqs, x, init);
    lemma_sorted_lines_same(collect_rest(nps, x, 0, init), collect_rest(nqs, x, 0, init));
    assert(canonical_form_spec(ps, x) == header() + concat_lines(
        sorted_lines(collect_rest(ps, x, 0, init)),
    ));
    assert(canonical_form_spec(qs, x) == header() + concat_lines(
        sorted_lines(collect_rest(qs, x, 0, init)),
    ));
}


/// The properties of `ps[i..]` that the canonical form counts (not `REV`,
/// not `PRODID`, not `PHOTO` when photos are left out), in order.
pub open spec fn counted_from(ps: Seq<PropertyView>, x: bool, i: int) -> Seq<PropertyView>
    decreases ps.len() - i,
{
    if i < 0 || i >= ps.len() {
        seq![]
    } else if is_excluded(ps[i], x) {
        counted_from(ps, x, i + 1)
    } else {
        seq![ps[i]] + counted_from(ps, x, i + 1)
    }
}

proof fn lemma_counted_from(ps: Seq<PropertyView>, x: bool, i: int)
    requires
        0 <= i <= ps.len(),
    ensures
        canonical_form_spec(ps.take(i) + counted_from(ps, x, i), x) == canonical_form_spec(ps, x),
    decreases ps.len() - i,
{
    if i == ps.len() {
        assert(ps.take(i) + counted_from(ps, x, i) =~= ps);
    } else {
        lemma_counted_from(ps, x, i + 1);
        if is_excluded(ps[i], x) {
            let rest = ps.take(i) + counted_from(ps, x, i);
            assert(rest.insert(i, ps[i]) =~= ps.take(i + 1) + counted_from(ps, x, i + 1));
            super::canonical::lemma_excluded_property_ignored(rest, ps[i], i, x);
        } else {
            assert(ps.take(i) + counted_from(ps, x, i) =~= ps.take(i + 1) + counted_from(
                ps,
                x,
                i + 1,
            ));
        }
    }
}

/// Properties that agree, in order and apart from where they stand, once
/// the ones the canonical form leaves out are dropped (`REV`, `PRODID`, and
/// `PHOTO` when photos are left out) have the same canonical form.
pub proof fn lemma_excluded_properties_ignored(ps: Seq<PropertyView>, qs: Seq<PropertyView>, x: bool)
    requires
        counted_from(ps, x, 0).map_values(|p: PropertyView| without_position(p)) == counted_from(
            qs,
            x,
            0,
        ).map_values(|p: PropertyView| without_position(p)),
    ensures
        canonical_form_spec(ps, x) == canonical_form_spec(qs, x),
{
    lemma_counted_from(ps, x, 0);
    lemma_counted_from(qs, x, 0);
    assert(ps.take(0) + counted_from(ps, x, 0) =~= counted_from(ps, x, 0));
    assert(qs.take(0) + counted_from(qs, x, 0) =~= counted_from(qs, x, 0));
    lemma_canonical_form_reorder(counted_from(ps, x, 0), counted_from(qs, x, 0), x);
}

} // verus!

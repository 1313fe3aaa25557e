//! Why the names of a card's groups do not matter to its canonical form:
//! groups are labelled by their sorted content, so renaming them
//! consistently (Apple's `itemN.` renumbering) collects the same group
//! contents, only under other names.

use vstd::prelude::*;
use crate::text::lower_seq;
use super::canonical::{canonical_form_spec, concat_lines, header, is_excluded, labeled};
use super::order::{lemma_str_lt_irreflexive, lemma_unique_pos, strictly_sorted, unique_pos_from};
use super::reorder::{
    collect_rest, collect_step, lemma_collect_unfold, lemma_merge_keeps,
    lemma_sort_lists_by_elements, well_kept, Collected,
};
use super::PropertyView;

verus! {

/// The lower-cased name of the group a property is collected under.
pub open spec fn group_key(p: PropertyView) -> Seq<char> {
    match p.group {
        Some(g) => lower_seq(g),
        None => seq![],
    }
}

/// Property `k` of `ps` goes into a group of the canonical form.
pub open spec fn grouped_at(ps: Seq<PropertyView>, x: bool, k: int) -> bool {
    0 <= k < ps.len() && !is_excluded(ps[k], x) && ps[k].group is Some
}

/// The same property but for the name of its group.
pub open spec fn same_but_group(p: PropertyView, q: PropertyView) -> bool {
    &&& p.name == q.name
    &&& p.params == q.params
    &&& p.value == q.value
    &&& (p.group is Some <==> q.group is Some)
}

/// `qs` is `ps` with its groups renamed consistently: each property keeps
/// its name, parameters and value, and whether it has a group at all; and
/// two properties that go into groups share one in `qs` exactly when they
/// share one in `ps` (group names compared ignoring case).
pub open spec fn regrouped(ps: Seq<PropertyView>, qs: Seq<PropertyView>, x: bool) -> bool {
    &&& ps.len() == qs.len()
    &&& forall|k: int| 0 <= k < ps.len() ==> #[trigger] same_but_group(ps[k], qs[k])
    &&& forall|k: int, l: int|
        #![trigger grouped_at(ps, x, k), grouped_at(ps, x, l)]
        grouped_at(ps, x, k) && grouped_at(ps, x, l) ==> (group_key(ps[k]) == group_key(ps[l])
            <==> group_key(qs[k]) == group_key(qs[l]))
}

/// Some property before `i` is collected under `g` in `ps` and under `h`
/// in `qs`.
pub open spec fn paired(
    ps: Seq<PropertyView>,
    qs: Seq<PropertyView>,
    x: bool,
    i: int,
    g: Seq<char>,
    h: Seq<char>,
) -> bool {
    exists|k: int|
        0 <= k < i && #[trigger] grouped_at(ps, x, k) && group_key(ps[k]) == g && group_key(qs[k])
            == h
}

/// Group `j` of `a` has a paired group in `b` with the same lines.
pub open spec fn matched_left(
    ps: Seq<PropertyView>,
    qs: Seq<PropertyView>,
    x: bool,
    i: int,
    a: Collected,
    b: Collected,
    j: int,
) -> bool {
    exists|j2: int| 0 <= j2 < b.1.len() && #[trigger] paired(ps, qs, x, i, a.1[j], b.1[j2]) && a.2[j] == b.2[j2]
}

/// Group `j2` of `b` has a paired group in `a`.
pub open spec fn matched_right(
    ps: Seq<PropertyView>,
    qs: Seq<PropertyView>,
    x: bool,
    i: int,
    a: Collected,
    b: Collected,
    j2: int,
) -> bool {
    exists|j: int| 0 <= j < a.1.len() && #[trigger] paired(ps, qs, x, i, a.1[j], b.1[j2])
}

/// What collecting `ps[..i]` and `qs[..i]` has in common: the same
/// ungrouped lines, and groups paired one to one with the same lines.
pub open spec fn regroup_inv(
    ps: Seq<PropertyView>,
    qs: Seq<PropertyView>,
    x: bool,
    i: int,
    a: Collected,
    b: Collected,
) -> bool {
    &&& a.0 == b.0
    &&& well_kept(a)
    &&& well_kept(b)
    &&& a.2.to_multiset() == b.2.to_multiset()
    &&& forall|j: int| 0 <= j < a.1.len() ==> #[trigger] matched_left(ps, qs, x, i, a, b, j)
    &&& forall|j2: int| 0 <= j2 < b.1.len() ==> #[trigger] matched_right(ps, qs, x, i, a, b, j2)
}

proof fn lemma_paired_grows(
    ps: Seq<PropertyView>,
    qs: Seq<PropertyView>,
    x: bool,
    i: int,
    g: Seq<char>,
    h: Seq<char>,
)
    requires
        paired(ps, qs, x, i, g, h),
    ensures
        paired(ps, qs, x, i + 1, g, h),
{
    let k = choose|k: int|
        0 <= k < i && #[trigger] grouped_at(ps, x, k) && group_key(ps[k]) == g && group_key(qs[k])
            == h;
    assert(0 <= k < i + 1 && grouped_at(ps, x, k));
}

/// A group of `ps` is paired with one group of `qs` only, and the other way
/// round.
proof fn lemma_paired_one_to_one(
    ps: Seq<PropertyView>,
    qs: Seq<PropertyView>,
    x: bool,
    i: int,
    g1: Seq<char>,
    h1: Seq<char>,
    g2: Seq<char>,
    h2: Seq<char>,
)
    requires
        regrouped(ps, qs, x),
        paired(ps, qs, x, i, g1, h1),
        paired(ps, qs, x, i, g2, h2),
    ensures
        g1 == g2 <==> h1 == h2,
{
    let k1 = choose|k: int|
        0 <= k < i && #[trigger] grouped_at(ps, x, k) && group_key(ps[k]) == g1 && group_key(qs[k])
            == h1;
    let k2 = choose|k: int|
        0 <= k < i && #[trigger] grouped_at(ps, x, k) && group_key(ps[k]) == g2 && group_key(qs[k])
            == h2;
    assert(grouped_at(ps, x, k1) && grouped_at(ps, x, k2));
}

/// In a strictly sorted list, equal elements are at the same place.
proof fn lemma_sorted_distinct(l: Seq<Seq<char>>, j1: int, j2: int)
    requires
        strictly_sorted(l),
        0 <= j1 < l.len(),
        0 <= j2 < l.len(),
        l[j1] == l[j2],
    ensures
        j1 == j2,
{
    lemma_str_lt_irreflexive(l[j1]);
    if j1 < j2 {
        assert(super::order::str_lt(l[j1], l[j2]));
    } else if j2 < j1 {
        assert(super::order::str_lt(l[j2], l[j1]));
    }
}

/// In a strictly sorted list, the scan for an element it holds stops there.
proof fn lemma_sorted_finds(l: Seq<Seq<char>>, key: Seq<char>, j: int)
    requires
        strictly_sorted(l),
        0 <= j < l.len(),
        l[j] == key,
    ensures
        unique_pos_from(l, key, 0) == j,
{
    lemma_unique_pos(l, key, 0);
    let p = unique_pos_from(l, key, 0);
    lemma_str_lt_irreflexive(key);
    if j < p {
        assert(super::order::str_lt(l[j], key));
    }
    if p < j {
        assert(super::order::str_lt(l[p], l[j]));
        if l[p] != key {
            super::order::lemma_str_lt_transitive(key, l[p], key);
        }
        lemma_sorted_distinct(l, p, j);
    }
}

/// Collecting one more property keeps what the two sides have in common.
proof fn lemma_regroup_step(
    ps: Seq<PropertyView>,
    qs: Seq<PropertyView>,
    x: bool,
    i: int,
    a: Collected,
    b: Collected,
)
    requires
        regrouped(ps, qs, x),
        0 <= i < ps.len(),
        regroup_inv(ps, qs, x, i, a, b),
    ensures
        regroup_inv(
            ps,
            qs,
            x,
            i + 1,
            collect_step(x, ps[i], a),
            collect_step(x, qs[i], b),
        ),
{
    let p = ps[i];
    let q = qs[i];
    assert(same_but_group(p, q));
    let a1 = collect_step(x, p, a);
    let b1 = collect_step(x, q, b);
    assert(is_excluded(p, x) == is_excluded(q, x));
    if is_excluded(p, x) || p.group is None {
        assert(super::canonical::canonical_line_spec(p) == super::canonical::canonical_line_spec(q));
        assert(a1.1 == a.1 && a1.2 == a.2 && b1.1 == b.1 && b1.2 == b.2);
        assert forall|j: int| 0 <= j < a1.1.len() implies #[trigger] matched_left(
            ps,
            qs,
            x,
            i + 1,
            a1,
            b1,
            j,
        ) by {
            assert(matched_left(ps, qs, x, i, a, b, j));
            let j2 = choose|j2: int|
                0 <= j2 < b.1.len() && #[trigger] paired(ps, qs, x, i, a.1[j], b.1[j2]) && a.2[j]
                    == b.2[j2];
            lemma_paired_grows(ps, qs, x, i, a.1[j], b.1[j2]);
        }
        assert forall|j2: int| 0 <= j2 < b1.1.len() implies #[trigger] matched_right(
            ps,
            qs,
            x,
            i + 1,
            a1,
            b1,
            j2,
        ) by {
            assert(matched_right(ps, qs, x, i, a, b, j2));
            let j = choose|j: int| 0 <= j < a.1.len() && #[trigger] paired(ps, qs, x, i, a.1[j], b.1[j2]);
            lemma_paired_grows(ps, qs, x, i, a.1[j], b.1[j2]);
        }
    } else {
        assert(super::canonical::canonical_line_spec(p) == super::canonical::canonical_line_spec(q));
        let line = super::canonical::canonical_line_spec(p);
        let items = seq![line];
        let g = group_key(p);
        let h = group_key(q);
        assert(grouped_at(ps, x, i));
        assert(paired(ps, qs, x, i + 1, g, h));
        lemma_unique_pos(a.1, g, 0);
        lemma_unique_pos(b.1, h, 0);
        let pa = unique_pos_from(a.1, g, 0);
        let pb = unique_pos_from(b.1, h, 0);
        let fa = pa < a.1.len() && a.1[pa] == g;
        let fb = pb < b.1.len() && b.1[pb] == h;
        lemma_merge_keeps(a.1, a.2, g, items);
        lemma_merge_keeps(b.1, b.2, h, items);
        // a group of `a` is `g` exactly when its partner in `b` is `h`
        assert forall|j: int, j2: int|
            #![trigger paired(ps, qs, x, i, a.1[j], b.1[j2])]
            0 <= j < a.1.len() && 0 <= j2 < b.1.len() && paired(ps, qs, x, i, a.1[j], b.1[j2])
                implies (a.1[j] == g <==> b.1[j2] == h) by {
            lemma_paired_grows(ps, qs, x, i, a.1[j], b.1[j2]);
            lemma_paired_one_to_one(ps, qs, x, i + 1, a.1[j], b.1[j2], g, h);
        }
        if fa {
            assert(matched_left(ps, qs, x, i, a, b, pa));
            let w = choose|j2: int|
                0 <= j2 < b.1.len() && #[trigger] paired(ps, qs, x, i, a.1[pa], b.1[j2]) && a.2[pa]
                    == b.2[j2];
            assert(b.1[w] == h);
            lemma_sorted_finds(b.1, h, w);
            assert(fb);
        }
        if fb {
            assert(matched_right(ps, qs, x, i, a, b, pb));
            let w = choose|j: int| 0 <= j < a.1.len() && #[trigger] paired(ps, qs, x, i, a.1[j], b.1[pb]);
            assert(a.1[w] == g);
            lemma_sorted_finds(a.1, g, w);
            assert(fa);
        }
        if fa {
            // both append the line to the paired group
            assert(matched_left(ps, qs, x, i, a, b, pa));
            let w = choose|j2: int|
                0 <= j2 < b.1.len() && #[trigger] paired(ps, qs, x, i, a.1[pa], b.1[j2]) && a.2[pa]
                    == b.2[j2];
            lemma_sorted_distinct(b.1, w, pb);
            assert(a.2[pa] == b.2[pb]);
            assert(a1.1 == a.1 && a1.2 == a.2.update(pa, a.2[pa] + items));
            assert(b1.1 == b.1 && b1.2 == b.2.update(pb, b.2[pb] + items));
            vstd::seq_lib::to_multiset_update(a.2, pa, a.2[pa] + items);
            vstd::seq_lib::to_multiset_update(b.2, pb, b.2[pb] + items);
            assert forall|j: int| 0 <= j < a1.1.len() implies #[trigger] matched_left(
                ps,
                qs,
                x,
                i + 1,
                a1,
                b1,
                j,
            ) by {
                if j == pa {
                    assert(paired(ps, qs, x, i + 1, a1.1[pa], b1.1[pb]));
                } else {
                    assert(matched_left(ps, qs, x, i, a, b, j));
                    let j2 = choose|j2: int|
                        0 <= j2 < b.1.len() && #[trigger] paired(ps, qs, x, i, a.1[j], b.1[j2])
                            && a.2[j] == b.2[j2];
                    if j2 == pb {
                        lemma_sorted_distinct(a.1, j, pa);
                    }
                    lemma_paired_grows(ps, qs, x, i, a.1[j], b.1[j2]);
                    assert(paired(ps, qs, x, i + 1, a1.1[j], b1.1[j2]));
                }
            }
            assert forall|j2: int| 0 <= j2 < b1.1.len() implies #[trigger] matched_right(
                ps,
                qs,
                x,
                i + 1,
                a1,
                b1,
                j2,
            ) by {
                assert(matched_right(ps, qs, x, i, a, b, j2));
                let j = choose|j: int| 0 <= j < a.1.len() && #[trigger] paired(ps, qs, x, i, a.1[j], b.1[j2]);
                lemma_paired_grows(ps, qs, x, i, a.1[j], b.1[j2]);
                assert(paired(ps, qs, x, i + 1, a1.1[j], b1.1[j2]));
            }
        } else {
            // both start a new group with the line
            assert(a1.1 == a.1.insert(pa, g) && a1.2 == a.2.insert(pa, items));
            assert(b1.1 == b.1.insert(pb, h) && b1.2 == b.2.insert(pb, items));
            vstd::seq_lib::to_multiset_insert(a.2, pa, items);
            vstd::seq_lib::to_multiset_insert(b.2, pb, items);
            assert forall|j: int| 0 <= j < a1.1.len() implies #[trigger] matched_left(
                ps,
                qs,
                x,
                i + 1,
                a1,
                b1,
                j,
            ) by {
                if j == pa {
                    assert(paired(ps, qs, x, i + 1, a1.1[pa], b1.1[pb]));
                } else {
                    let o = if j < pa {
                        j
                    } else {
                        j - 1
                    };
                    assert(a1.1[j] == a.1[o] && a1.2[j] == a.2[o]);
                    assert(matched_left(ps, qs, x, i, a, b, o));
                    let j2 = choose|j2: int|
                        0 <= j2 < b.1.len() && #[trigger] paired(ps, qs, x, i, a.1[o], b.1[j2])
                            && a.2[o] == b.2[j2];
                    let n2 = if j2 < pb {
                        j2
                    } else {
                        j2 + 1
                    };
                    assert(b1.1[n2] == b.1[j2] && b1.2[n2] == b.2[j2]);
                    lemma_paired_grows(ps, qs, x, i, a.1[o], b.1[j2]);
                    assert(paired(ps, qs, x, i + 1, a1.1[j], b1.1[n2]));
                }
            }
            assert forall|j2: int| 0 <= j2 < b1.1.len() implies #[trigger] matched_right(
                ps,
                qs,
                x,
                i + 1,
                a1,
                b1,
                j2,
            ) by {
                if j2 == pb {
                    assert(paired(ps, qs, x, i + 1, a1.1[pa], b1.1[pb]));
                } else {
                    let o2 = if j2 < pb {
                        j2
                    } else {
                        j2 - 1
                    };
                    assert(b1.1[j2] == b.1[o2]);
                    assert(matched_right(ps, qs, x, i, a, b, o2));
                    let j = choose|j: int| 0 <= j < a.1.len() && #[trigger] paired(ps, qs, x, i, a.1[j], b.1[o2]);
                    let n = if j < pa {
                        j
                    } else {
                        j + 1
                    };
                    assert(a1.1[n] == a.1[j]);
                    lemma_paired_grows(ps, qs, x, i, a.1[j], b.1[o2]);
                    assert(paired(ps, qs, x, i + 1, a1.1[n], b1.1[j2]));
                }
            }
        }
    }
}


proof fn lemma_regroup_collect(
    ps: Seq<PropertyView>,
    qs: Seq<PropertyView>,
    x: bool,
    i: int,
    a: Collected,
    b: Collected,
)
    requires
        regrouped(ps, qs, x),
        0 <= i <= ps.len(),
        regroup_inv(ps, qs, x, i, a, b),
    ensures
        collect_rest(ps, x, i, a).0 == collect_rest(qs, x, i, b).0,
        collect_rest(ps, x, i, a).2.to_multiset() == collect_rest(qs, x, i, b).2.to_multiset(),
    decreases ps.len() - i,
{
    if i < ps.len() {
        lemma_collect_unfold(ps, x, i, a);
        lemma_collect_unfold(qs, x, i, b);
        lemma_regroup_step(ps, qs, x, i, a, b);
        lemma_regroup_collect(
            ps,
            qs,
            x,
            i + 1,
            collect_step(x, ps[i], a),
            collect_step(x, qs[i], b),
        );
    }
}

/// Mapping preserves having the same elements.
pub(crate) proof fn lemma_map_same_elements<A, B>(a: Seq<A>, b: Seq<A>, f: spec_fn(A) -> B)
    requires
        a.to_multiset() == b.to_multiset(),
    ensures
        a.map_values(f).to_multiset() == b.map_values(f).to_multiset(),
    decreases a.len(),
{
    broadcast use vstd::seq_lib::group_to_multiset_ensures;

    vstd::seq_lib::to_multiset_len(a);
    vstd::seq_lib::to_multiset_len(b);
    if a.len() == 0 {
        assert(a.map_values(f) =~= b.map_values(f));
    } else {
        let v = a.last();
        assert(a.to_multiset().count(v) > 0);
        assert(b.contains(v));
        let j = choose|j: int| 0 <= j < b.len() && b[j] == v;
        let a0 = a.drop_last();
        let b0 = b.remove(j);
        assert(a.remove(a.len() - 1) =~= a0);
        vstd::seq_lib::to_multiset_remove(a, a.len() - 1);
        vstd::seq_lib::to_multiset_remove(b, j);
        lemma_map_same_elements(a0, b0, f);
        assert(a.map_values(f) =~= a0.map_values(f).push(f(v)));
        vstd::seq_lib::to_multiset_build(a0.map_values(f), f(v));
        assert(b.map_values(f) =~= b0.map_values(f).insert(j, f(v)));
        vstd::seq_lib::to_multiset_insert(b0.map_values(f), j, f(v));
    }
}

/// Renaming a card's groups consistently leaves its canonical form
/// unchanged: groups are labelled by their content, not by their names.
pub proof fn lemma_canonical_form_regroup(ps: Seq<PropertyView>, qs: Seq<PropertyView>, x: bool)
    requires
        regrouped(ps, qs, x),
    ensures
        canonical_form_spec(ps, x) == canonical_form_spec(qs, x),
{
    let init: Collected = (seq![], seq![], seq![]);
    assert(regroup_inv(ps, qs, x, 0, init, init));
    lemma_regroup_collect(ps, qs, x, 0, init, init);
    let c1 = collect_rest(ps, x, 0, init);
    let c2 = collect_rest(qs, x, 0, init);
    let f = |m: Seq<Seq<char>>| super::order::sort_spec(m);
    lemma_map_same_elements(c1.2, c2.2, f);
    lemma_sort_lists_by_elements(c1.2.map_values(f), c2.2.map_values(f));
    assert(canonical_form_spec(ps, x) == header() + concat_lines(
        super::order::sort_spec(c1.0 + labeled(super::order::sort_lists(c1.2.map_values(f)))),
    ));
    assert(canonical_form_spec(qs, x) == header() + concat_lines(
        super::order::sort_spec(c2.0 + labeled(super::order::sort_lists(c2.2.map_values(f)))),
    ));
}

} // verus!

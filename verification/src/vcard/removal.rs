//! Removing whole logical lines from a card's bytes leaves every other line
//! as it was: why stripping the photos of a card leaves a card.

use vstd::prelude::*;
use crate::text::{eq_ignore_case, lower_seq, trim};
use super::canonical::{canonical_form_spec, is_excluded, lemma_excluded_property_ignored, photo_word};
use super::card::{lemma_card_spans, ordered_properties, parse_card_spec};
use super::layout::{
    lemma_first_named_content, lemma_parse_line_content, lemma_structure_content, line_bytes,
    unpositioned,
};
use super::parser::{
    begin_word, check_structure_spec, end_word, first_marker_from, first_named_from, is_marker,
    parse_line_spec, parse_lines_from, uid_word, version_word,
};
use super::photo::{is_embedded_photo_spec, strip_from, without_photo_bytes};
use super::reorder::{lemma_canonical_form_reorder, without_position};
use super::{PropertyView, VCardErrorView, VCardView};
use super::unfold::{
    body_start, content, is_fold, lemma_line_len, line_len, step_acc, unfold_from, unfold_spec,
    LineView,
};

verus! {

// ---------------------------------------------------------------------------
// Physical lines
// ---------------------------------------------------------------------------

/// A physical line runs to its first `\n`, included, or to the end.
proof fn lemma_line_shape(raw: Seq<u8>, p: int)
    requires
        0 <= p < raw.len(),
    ensures
        1 <= line_len(raw, p) <= raw.len() - p,
        forall|t: int| p <= t < p + line_len(raw, p) - 1 ==> raw[t] != 10,
        raw[p + line_len(raw, p) - 1] == 10 || p + line_len(raw, p) == raw.len(),
    decreases raw.len() - p,
{
    lemma_line_len(raw, p);
    if raw[p] != 10 && p + 1 < raw.len() {
        lemma_line_shape(raw, p + 1);
    }
}

/// The physical line at `p` ends at `q` when `q - 1` holds the first `\n`.
proof fn lemma_line_ends_at(raw: Seq<u8>, p: int, q: int)
    requires
        0 <= p < q <= raw.len(),
        forall|t: int| p <= t < q - 1 ==> raw[t] != 10,
        raw[q - 1] == 10,
    ensures
        line_len(raw, p) == q - p,
    decreases q - p,
{
    if p < q - 1 {
        lemma_line_ends_at(raw, p + 1, q);
    }
}

/// Physical lines depend only on the bytes from where they start.
proof fn lemma_line_same_suffix(a: Seq<u8>, p: int, b: Seq<u8>, r: int)
    requires
        0 <= p <= a.len(),
        0 <= r <= b.len(),
        a.subrange(p, a.len() as int) == b.subrange(r, b.len() as int),
    ensures
        line_len(a, p) == line_len(b, r),
        p < a.len() ==> content(a, p, p + line_len(a, p)) == content(b, r, r + line_len(b, r)),
    decreases a.len() - p,
{
    assert(a.subrange(p, a.len() as int).len() == a.len() - p);
    assert(b.subrange(r, b.len() as int).len() == b.len() - r);
    assert(a.len() - p == b.len() - r);
    if p < a.len() {
        assert(a[p] == a.subrange(p, a.len() as int)[0]);
        assert(b[r] == b.subrange(r, b.len() as int)[0]);
        assert(a.subrange(p + 1, a.len() as int) =~= a.subrange(p, a.len() as int).drop_first());
        assert(b.subrange(r + 1, b.len() as int) =~= b.subrange(r, b.len() as int).drop_first());
        lemma_line_same_suffix(a, p + 1, b, r + 1);
        lemma_line_len(a, p);
        let l = line_len(a, p);
        assert(a.subrange(p, p + l) =~= a.subrange(p, a.len() as int).take(l as int));
        assert(b.subrange(r, r + l) =~= b.subrange(r, b.len() as int).take(l as int));
    }
}

// ---------------------------------------------------------------------------
// What unfolding leaves alone
// ---------------------------------------------------------------------------

/// Unfolding only ever changes the last line found so far or adds lines:
/// earlier lines stay as they are, the last one keeps its start and may
/// only grow to the end of a later physical line, and new lines start
/// further on.
proof fn lemma_run_frozen(raw: Seq<u8>, p: int, n: int, acc: Seq<LineView>)
    requires
        0 <= p,
        acc.len() > 0 ==> acc.last().end <= p,
    ensures
        unfold_from(raw, p, n, acc).len() >= acc.len(),
        forall|j: int| 0 <= j < acc.len() - 1 ==> #[trigger] unfold_from(raw, p, n, acc)[j] == acc[j],
        acc.len() > 0 ==> unfold_from(raw, p, n, acc)[acc.len() - 1].start == acc.last().start
            && unfold_from(raw, p, n, acc)[acc.len() - 1].end >= acc.last().end,
        acc.len() > 0 && p < raw.len() ==> (unfold_from(raw, p, n, acc)[acc.len() - 1].end
            == acc.last().end || unfold_from(raw, p, n, acc)[acc.len() - 1].end >= p + line_len(
            raw,
            p,
        )),
        forall|j: int|
            acc.len() <= j < unfold_from(raw, p, n, acc).len() ==> #[trigger] unfold_from(
                raw,
                p,
                n,
                acc,
            )[j].start >= p,
        forall|j: int|
            acc.len() <= j < unfold_from(raw, p, n, acc).len() ==> (#[trigger] unfold_from(
                raw,
                p,
                n,
                acc,
            )[j].start == p || raw[unfold_from(raw, p, n, acc)[j].start - 1] == 10)
                && unfold_from(raw, p, n, acc)[j].start < unfold_from(raw, p, n, acc)[j].end,
    decreases raw.len() - p,
{
    if p < raw.len() {
        lemma_line_len(raw, p);
        let end = p + line_len(raw, p);
        let c = content(raw, p, end);
        let next = step_acc(acc, c, p, end, n + 1);
        lemma_run_frozen(raw, end, n + 1, next);
        lemma_line_shape(raw, p);
        let f = unfold_from(raw, p, n, acc);
        assert(f == unfold_from(raw, end, n + 1, next));
        if c.len() > 0 && is_fold(c[0]) && acc.len() > 0 {
            assert(next.len() == acc.len());
            assert forall|j: int| 0 <= j < acc.len() - 1 implies #[trigger] f[j] == acc[j] by {
                assert(next[j] == acc[j]);
            }
        } else if c.len() == 0 {
        } else {
            assert(next.len() == acc.len() + 1);
            assert forall|j: int| 0 <= j < acc.len() - 1 implies #[trigger] f[j] == acc[j] by {
                assert(next[j] == acc[j]);
            }
            if acc.len() > 0 {
                assert(f[acc.len() - 1] == next[acc.len() - 1]);
            }
            assert(f[acc.len() as int].start == next.last().start);
        }
    }
}

// ---------------------------------------------------------------------------
// Removing one logical line
// ---------------------------------------------------------------------------

/// After the removed line: both sides read the same physical lines, and
/// their lines agree but for the removed one.
proof fn lemma_removed_tail(
    t: Seq<u8>,
    u: Seq<u8>,
    k: int,
    d: int,
    q: int,
    nt: int,
    at: Seq<LineView>,
    nu: int,
    au: Seq<LineView>,
)
    requires
        0 <= d <= q <= t.len(),
        u.len() == t.len() - d,
        t.subrange(q, t.len() as int) == u.subrange(q - d, u.len() as int),
        at.len() >= k + 1,
        k >= 0,
        au.len() == at.len() - 1,
        au.take(k) == at.take(k),
        line_bytes(au).skip(k) == line_bytes(at).skip(k + 1),
        at.last().end <= q,
        at.len() == k + 1 ==> unfold_from(t, q, nt, at)[k].end == at[k].end,
    ensures
        unfold_from(u, q - d, nu, au).len() == unfold_from(t, q, nt, at).len() - 1,
        unfold_from(u, q - d, nu, au).take(k) == unfold_from(t, q, nt, at).take(k),
        line_bytes(unfold_from(u, q - d, nu, au)).skip(k) == line_bytes(
            unfold_from(t, q, nt, at),
        ).skip(k + 1),
    decreases t.len() - q,
{
    if q < t.len() {
        lemma_line_same_suffix(t, q, u, q - d);
        lemma_line_len(t, q);
        let l = line_len(t, q);
        let c = content(t, q, q + l);
        let at1 = step_acc(at, c, q, q + l, nt + 1);
        let au1 = step_acc(au, c, q - d, q - d + l, nu + 1);
        lemma_run_frozen(t, q + l, nt + 1, at1);
        if c.len() > 0 && is_fold(c[0]) {
            if at.len() == k + 1 {
                assert(at1.last().end == q + l);
                assert(false);
            }
            assert(au.len() > 0);
            assert(au1.take(k) =~= at1.take(k)) by {
                assert(au1.take(k) =~= au.take(k));
                assert(at1.take(k) =~= at.take(k));
            }
            assert(line_bytes(au1).skip(k) =~= line_bytes(at1).skip(k + 1)) by {
                assert(line_bytes(au).skip(k).len() == line_bytes(at).skip(k + 1).len());
                assert forall|j: int| 0 <= j < line_bytes(au1).skip(k).len() implies line_bytes(
                    au1,
                ).skip(k)[j] == line_bytes(at1).skip(k + 1)[j] by {
                    assert(line_bytes(au).skip(k)[j] == line_bytes(at).skip(k + 1)[j]);
                }
            }
        } else if c.len() == 0 {
        } else {
            assert(au1.take(k) =~= at1.take(k)) by {
                assert(au1.take(k) =~= au.take(k));
                assert(at1.take(k) =~= at.take(k));
            }
            assert(line_bytes(au1).skip(k) =~= line_bytes(at1).skip(k + 1)) by {
                assert forall|j: int| 0 <= j < line_bytes(au1).skip(k).len() implies line_bytes(
                    au1,
                ).skip(k)[j] == line_bytes(at1).skip(k + 1)[j] by {
                    if j < line_bytes(au).skip(k).len() {
                        assert(line_bytes(au).skip(k)[j] == line_bytes(at).skip(k + 1)[j]);
                    }
                }
            }
        }
        assert(t.subrange(q + l, t.len() as int) =~= t.subrange(q, t.len() as int).skip(l as int));
        assert(u.subrange(q - d + l, u.len() as int) =~= u.subrange(q - d, u.len() as int).skip(l as int));
        lemma_removed_tail(t, u, k, d, q + l, nt + 1, at1, nu + 1, au1);
    } else {
        assert(unfold_from(u, q - d, nu, au) == au);
    }
}

/// Inside the removed line: the full bytes are read line by line while
/// the other side stays where the line was.
proof fn lemma_removed_inside(
    t: Seq<u8>,
    u: Seq<u8>,
    k: int,
    s: int,
    e: int,
    q: int,
    nt: int,
    at: Seq<LineView>,
    nu: int,
    au: Seq<LineView>,
)
    requires
        0 <= s < q <= e <= t.len(),
        u.len() == t.len() - (e - s),
        t.subrange(e, t.len() as int) == u.subrange(s, u.len() as int),
        k >= 0,
        at.len() == k + 1,
        au.len() == k,
        au.take(k) == at.take(k),
        at.last().end <= q,
        unfold_from(t, q, nt, at)[k].end == e,
    ensures
        unfold_from(u, s, nu, au).len() == unfold_from(t, q, nt, at).len() - 1,
        unfold_from(u, s, nu, au).take(k) == unfold_from(t, q, nt, at).take(k),
        line_bytes(unfold_from(u, s, nu, au)).skip(k) == line_bytes(
            unfold_from(t, q, nt, at),
        ).skip(k + 1),
    decreases e - q,
{
    lemma_run_frozen(t, q, nt, at);
    if q == e {
        if q < t.len() {
            assert(at.last().end == e);
        }
        assert(line_bytes(au).skip(k) =~= line_bytes(at).skip(k + 1));
        lemma_removed_tail(t, u, k, e - s, q, nt, at, nu, au);
    } else {
        lemma_line_len(t, q);
        let l = line_len(t, q);
        let c = content(t, q, q + l);
        let at1 = step_acc(at, c, q, q + l, nt + 1);
        lemma_run_frozen(t, q + l, nt + 1, at1);
        if !(c.len() > 0 && is_fold(c[0])) && c.len() > 0 {
            assert(unfold_from(t, q, nt, at)[k] == at1[k]);
            assert(false);
        }
        assert(at1.take(k) =~= at.take(k));
        lemma_removed_inside(t, u, k, s, e, q + l, nt + 1, at1, nu, au);
    }
}

/// Before the removed line: both sides read the same physical lines.
proof fn lemma_removed_before(
    t: Seq<u8>,
    u: Seq<u8>,
    k: int,
    s: int,
    e: int,
    p: int,
    n: int,
    a: Seq<LineView>,
)
    requires
        0 <= p <= s <= e <= t.len(),
        u == t.subrange(0, s) + t.subrange(e, t.len() as int),
        0 <= k,
        a.len() <= k,
        a.len() > 0 ==> a.last().end <= p,
        unfold_from(t, p, n, a).len() > k,
        unfold_from(t, p, n, a)[k].start == s,
        unfold_from(t, p, n, a)[k].end == e,
    ensures
        unfold_from(u, p, n, a).len() == unfold_from(t, p, n, a).len() - 1,
        unfold_from(u, p, n, a).take(k) == unfold_from(t, p, n, a).take(k),
        line_bytes(unfold_from(u, p, n, a)).skip(k) == line_bytes(unfold_from(t, p, n, a)).skip(
            k + 1,
        ),
    decreases s - p,
{
    if p >= t.len() {
        assert(unfold_from(t, p, n, a) == a);
        assert(false);
    }
    lemma_line_len(t, p);
    let l = line_len(t, p);
    let c = content(t, p, p + l);
    let a1 = step_acc(a, c, p, p + l, n + 1);
    lemma_run_frozen(t, p + l, n + 1, a1);
    let pushed = !(c.len() > 0 && is_fold(c[0]) && a.len() > 0) && c.len() > 0;
    assert(unfold_from(t, p, n, a) == unfold_from(t, p + l, n + 1, a1));
    if p == s {
        if !(pushed && a.len() == k) {
            assert(a1.len() <= k);
            assert(false);
        }
        assert(u.subrange(s, u.len() as int) =~= t.subrange(e, t.len() as int));
        assert(a1.take(k) =~= a);
        assert(a.take(k) =~= a);
        lemma_removed_inside(t, u, k, s, e, p + l, n + 1, a1, n, a);
    } else {
        if pushed && a.len() == k {
            assert(false);
        }
        assert(a1.len() <= k);
        assert(s >= p + l);
        lemma_line_shape(t, p);
        assert(t[p + l - 1] == 10);
        assert(u.len() == s + (t.len() - e));
        assert forall|x: int| p <= x < p + l - 1 implies u[x] != 10 by {
            assert(u[x] == t.subrange(0, s)[x]);
        }
        assert(u[p + l - 1] == t.subrange(0, s)[p + l - 1]);
        assert(u[p + l - 1] == t[p + l - 1]);
        lemma_line_ends_at(u, p, p + l);
        assert(u.subrange(p, p + l) =~= t.subrange(p, p + l));
        lemma_removed_before(t, u, k, s, e, p + l, n + 1, a1);
    }
}

/// Removing the bytes of one logical line other than the first removes
/// that line and leaves the others: those before it exactly, those after it
/// with the same contents.
pub proof fn lemma_remove_line(t: Seq<u8>, k: int)
    requires
        1 <= k < unfold_spec(t).len(),
    ensures
        ({
            let m = unfold_spec(t);
            let u = t.subrange(0, m[k].start) + t.subrange(m[k].end, t.len() as int);
            &&& body_start(u) == body_start(t)
            &&& unfold_spec(u).take(k) == m.take(k)
            &&& line_bytes(unfold_spec(u)) == line_bytes(m.remove(k))
        }),
{
    let m = unfold_spec(t);
    let s = m[k].start;
    let e = m[k].end;
    let b = body_start(t);
    super::unfold::lemma_unfold_ordered(t);
    lemma_run_frozen(t, b, 0, seq![]);
    let u = t.subrange(0, s) + t.subrange(e, t.len() as int);
    // the line starts after another one, just after a line break
    assert(m[0].start < m[0].end <= s);
    assert(t[s - 1] == 10);
    if s >= 3 {
        assert(u.subrange(0, 3) =~= t.subrange(0, 3));
    } else {
        assert(u[s - 1] == t.subrange(0, s)[s - 1]);
    }
    assert(body_start(u) == b);
    lemma_removed_before(t, u, k, s, e, b, 0, seq![]);
    let f = unfold_spec(u);
    assert(line_bytes(f) =~= line_bytes(m.remove(k))) by {
        assert(f.len() == m.len() - 1);
        assert forall|j: int| 0 <= j < f.len() implies #[trigger] line_bytes(f)[j] == line_bytes(
            m.remove(k),
        )[j] by {
            if j < k {
                assert(f.take(k)[j] == m.take(k)[j]);
            } else {
                assert(line_bytes(f).skip(k)[j - k] == line_bytes(m).skip(k + 1)[j - k]);
            }
        }
    }
}


// ---------------------------------------------------------------------------
// Removing one property
// ---------------------------------------------------------------------------

/// Parsing lines succeeds exactly when every line parses, and then gives
/// each line's property in order after `acc`.
pub(crate) proof fn lemma_parse_lines_each(lines: Seq<LineView>, i: int, acc: Seq<PropertyView>)
    requires
        0 <= i <= lines.len(),
    ensures
        parse_lines_from(lines, i, acc) is Ok <==> forall|j: int|
            i <= j < lines.len() ==> #[trigger] parse_line_spec(lines[j]) is Ok,
        parse_lines_from(lines, i, acc) is Ok ==> {
            let r = parse_lines_from(lines, i, acc)->Ok_0;
            &&& r.len() == acc.len() + lines.len() - i
            &&& r.take(acc.len() as int) == acc
            &&& forall|j: int|
                i <= j < lines.len() ==> r[acc.len() + j - i] == #[trigger] parse_line_spec(
                    lines[j],
                )->Ok_0
        },
    decreases lines.len() - i,
{
    if i < lines.len() {
        lemma_parse_lines_each(lines, i + 1, acc.push(parse_line_spec(lines[i])->Ok_0));
        if parse_line_spec(lines[i]) is Ok {
            let r = parse_lines_from(lines, i, acc);
            if r is Ok {
                let rr = r->Ok_0;
                let a1 = acc.push(parse_line_spec(lines[i])->Ok_0);
                assert(rr.take(acc.len() + 1int) == a1);
                assert(rr.take(acc.len() + 1int).take(acc.len() as int) =~= rr.take(acc.len() as int));
                assert(a1.take(acc.len() as int) =~= acc);
                assert(rr[acc.len() as int] == rr.take(acc.len() + 1int)[acc.len() as int]);
                assert forall|j: int| i <= j < lines.len() implies rr[acc.len() + j - i]
                    == #[trigger] parse_line_spec(lines[j])->Ok_0 by {
                    if j > i {
                        assert(rr[a1.len() + j - (i + 1)] == parse_line_spec(lines[j])->Ok_0);
                    }
                }
            }
        }
    } else {
        assert(parse_lines_from(lines, i, acc) == Ok::<Seq<PropertyView>, VCardErrorView>(acc));
        assert(acc.take(acc.len() as int) =~= acc);
    }
}

/// What the first marker search finds: the first marker from `i` on.
proof fn lemma_first_marker_is(ps: Seq<PropertyView>, name: Seq<char>, i: int)
    requires
        0 <= i,
    ensures
        match first_marker_from(ps, name, i) {
            Some(e) => i <= e < ps.len() && is_marker(ps[e], name) && forall|j: int|
                i <= j < e ==> !#[trigger] is_marker(ps[j], name),
            None => forall|j: int| i <= j < ps.len() ==> !#[trigger] is_marker(ps[j], name),
        },
    decreases ps.len() - i,
{
    if i < ps.len() {
        lemma_first_marker_is(ps, name, i + 1);
    }
}

/// What the first name search finds: the first property so named from `i`
/// on.
proof fn lemma_first_named_is(ps: Seq<PropertyView>, name: Seq<char>, i: int)
    requires
        0 <= i,
    ensures
        match first_named_from(ps, name, i) {
            Some(e) => i <= e < ps.len() && eq_ignore_case(ps[e].name, name) && forall|j: int|
                i <= j < e ==> !eq_ignore_case(#[trigger] ps[j].name, name),
            None => forall|j: int| i <= j < ps.len() ==> !eq_ignore_case(#[trigger] ps[j].name, name),
        },
    decreases ps.len() - i,
{
    if i < ps.len() {
        lemma_first_named_is(ps, name, i + 1);
    }
}

/// Removing a property that is none of the first, a marker, the version or
/// a UID leaves the first version and UID where they were, after removal.
proof fn lemma_first_named_removed(ps: Seq<PropertyView>, name: Seq<char>, k: int)
    requires
        0 <= k < ps.len(),
        !eq_ignore_case(ps[k].name, name),
    ensures
        match first_named_from(ps, name, 0) {
            Some(v) => first_named_from(ps.remove(k), name, 0) == Some(
                if v < k {
                    v
                } else {
                    v - 1
                },
            ),
            None => first_named_from(ps.remove(k), name, 0) is None,
        },
{
    let r = ps.remove(k);
    lemma_first_named_is(ps, name, 0);
    lemma_first_named_is(r, name, 0);
    match first_named_from(ps, name, 0) {
        Some(v) => {
            let w = if v < k {
                v
            } else {
                v - 1
            };
            assert(r[w] == ps[v]);
            match first_named_from(r, name, 0) {
                Some(x) => {
                    if x < w {
                        let o = if x < k {
                            x
                        } else {
                            x + 1
                        };
                        assert(r[x] == ps[o]);
                        assert(!eq_ignore_case(ps[o].name, name));
                    } else if x > w {
                        assert(!eq_ignore_case(r[w].name, name));
                    }
                },
                None => {
                    assert(!eq_ignore_case(r[w].name, name));
                },
            }
        },
        None => {
            match first_named_from(r, name, 0) {
                Some(x) => {
                    let o = if x < k {
                        x
                    } else {
                        x + 1
                    };
                    assert(r[x] == ps[o]);
                    assert(!eq_ignore_case(ps[o].name, name));
                },
                None => {},
            }
        },
    }
}

/// The structure of a card survives removing a property that is not its
/// first, not a `BEGIN`/`END` marker and not named `VERSION`.
proof fn lemma_structure_removed(ps: Seq<PropertyView>, k: int)
    requires
        check_structure_spec(ps) is Ok,
        1 <= k < ps.len(),
        !is_marker(ps[k], end_word()),
        !eq_ignore_case(ps[k].name, version_word()),
    ensures
        check_structure_spec(ps.remove(k)) is Ok,
{
    let r = ps.remove(k);
    assert(r[0] == ps[0]);
    if exists|j: int| 1 <= j < r.len() && #[trigger] is_marker(r[j], begin_word()) {
        let j = choose|j: int| 1 <= j < r.len() && #[trigger] is_marker(r[j], begin_word());
        let o = if j < k {
            j
        } else {
            j + 1
        };
        assert(r[j] == ps[o]);
        assert(is_marker(ps[o], begin_word()));
        assert(false);
    }
    lemma_first_marker_is(ps, end_word(), 0);
    lemma_first_marker_is(r, end_word(), 0);
    let e = first_marker_from(ps, end_word(), 0)->Some_0;
    assert(e == ps.len() - 1);
    assert(k < e);
    assert(r[r.len() - 1] == ps[e]);
    match first_marker_from(r, end_word(), 0) {
        Some(x) => {
            if x < r.len() - 1 {
                let o = if x < k {
                    x
                } else {
                    x + 1
                };
                assert(r[x] == ps[o]);
                assert(!is_marker(ps[o], end_word()));
            }
        },
        None => {
            assert(!is_marker(r[r.len() - 1], end_word()));
        },
    }
    lemma_first_named_removed(ps, version_word(), k);
    lemma_first_named_is(ps, version_word(), 0);
    let v = first_named_from(ps, version_word(), 0)->Some_0;
    let w = if v < k {
        v
    } else {
        v - 1
    };
    assert(r[w] == ps[v]);
}

/// Removing the line of a property that is not the first, not a `BEGIN` or
/// `END` marker and not named `VERSION` or `UID` leaves a card with the
/// other properties and the same UID.
pub proof fn lemma_remove_property(t: Seq<u8>, k: int)
    requires
        parse_card_spec(t) is Ok,
        1 <= k < parse_card_spec(t)->Ok_0.properties.len(),
        !is_marker(parse_card_spec(t)->Ok_0.properties[k], end_word()),
        !eq_ignore_case(parse_card_spec(t)->Ok_0.properties[k].name, version_word()),
        !eq_ignore_case(parse_card_spec(t)->Ok_0.properties[k].name, uid_word()),
    ensures
        ({
            let v = parse_card_spec(t)->Ok_0;
            let m = unfold_spec(t);
            let u = t.subrange(0, m[k].start) + t.subrange(m[k].end, t.len() as int);
            &&& m.len() == v.properties.len()
            &&& m[k].start == v.properties[k].start
            &&& m[k].end == v.properties[k].end
            &&& unfold_spec(u).take(k) == m.take(k)
            &&& parse_card_spec(u) is Ok
            &&& unpositioned(parse_card_spec(u)->Ok_0.properties) == unpositioned(
                v.properties.remove(k),
            )
            &&& parse_card_spec(u)->Ok_0.uid == v.uid
        }),
{
    let v = parse_card_spec(t)->Ok_0;
    let q = v.properties;
    let m = unfold_spec(t);
    super::parser::lemma_parse_lines_spans(m, 0, seq![]);
    lemma_parse_lines_each(m, 0, seq![]);
    assert(parse_lines_from(m, 0, seq![])->Ok_0 == q);
    lemma_remove_line(t, k);
    let u = t.subrange(0, m[k].start) + t.subrange(m[k].end, t.len() as int);
    let n = unfold_spec(u);
    let mr = m.remove(k);
    assert(line_bytes(n) == line_bytes(mr));
    assert(n.len() == mr.len());
    assert forall|j: int| 0 <= j < n.len() implies #[trigger] parse_line_spec(n[j]) is Ok
        && without_position(parse_line_spec(n[j])->Ok_0) == without_position(q.remove(k)[j]) by {
        let o = if j < k {
            j
        } else {
            j + 1
        };
        assert(mr[j] == m[o]);
        assert(line_bytes(n)[j] == line_bytes(mr)[j]);
        assert(parse_line_spec(m[o]) is Ok);
        assert(q[o] == parse_line_spec(m[o])->Ok_0);
        assert(q.remove(k)[j] == q[o]);
        lemma_parse_line_content(n[j], m[o]);
    }
    lemma_parse_lines_each(n, 0, seq![]);
    let w = parse_lines_from(n, 0, seq![])->Ok_0;
    assert(unpositioned(w) =~= unpositioned(q.remove(k))) by {
        assert forall|j: int| 0 <= j < w.len() implies #[trigger] unpositioned(w)[j] == unpositioned(
            q.remove(k),
        )[j] by {
            assert(w[j] == parse_line_spec(n[j])->Ok_0);
        }
    }
    assert(check_structure_spec(q) is Ok);
    lemma_structure_removed(q, k);
    lemma_structure_content(w, q.remove(k));
    lemma_first_named_removed(q, uid_word(), k);
    lemma_first_named_content(w, q.remove(k), uid_word(), 0);
    lemma_first_named_is(q, uid_word(), 0);
    let x = first_named_from(q, uid_word(), 0)->Some_0;
    let y = if x < k {
        x
    } else {
        x - 1
    };
    assert(q.remove(k)[y] == q[x]);
    assert(w.len() == unpositioned(w).len());
    assert(without_position(w[y]) == unpositioned(w)[y]);
    assert(without_position(q.remove(k)[y]) == unpositioned(q.remove(k))[y]);
    assert(trim(w[y].value) == trim(q[x].value));
}


// ---------------------------------------------------------------------------
// Removing the embedded photos
// ---------------------------------------------------------------------------

/// A card's bytes with the embedded photos among `ps[i..]` removed, the
/// later ones first.
pub open spec fn strip_after(raw: Seq<u8>, ps: Seq<PropertyView>, i: int) -> Seq<u8>
    decreases ps.len() - i,
{
    if i < 0 || i >= ps.len() {
        raw
    } else {
        let t = strip_after(raw, ps, i + 1);
        if is_embedded_photo_spec(ps[i]) {
            t.subrange(0, ps[i].start) + t.subrange(ps[i].end, t.len() as int)
        } else {
            t
        }
    }
}

/// The properties of `ps[i..]` that are not embedded photos, in order.
pub open spec fn kept_from(ps: Seq<PropertyView>, i: int) -> Seq<PropertyView>
    decreases ps.len() - i,
{
    if i < 0 || i >= ps.len() {
        seq![]
    } else if is_embedded_photo_spec(ps[i]) {
        kept_from(ps, i + 1)
    } else {
        seq![ps[i]] + kept_from(ps, i + 1)
    }
}

/// The properties that are not embedded photos, in order.
pub open spec fn without_photos(ps: Seq<PropertyView>) -> Seq<PropertyView> {
    kept_from(ps, 0)
}

/// Removing photos from `i` on keeps the bytes before them.
proof fn lemma_strip_after_prefix(raw: Seq<u8>, ps: Seq<PropertyView>, i: int, c: int)
    requires
        ordered_properties(ps, raw.len() as int),
        0 <= i <= ps.len(),
        0 <= c <= raw.len(),
        forall|j: int| i <= j < ps.len() ==> c <= #[trigger] ps[j].start,
    ensures
        c <= strip_after(raw, ps, i).len(),
        strip_after(raw, ps, i).subrange(0, c) == raw.subrange(0, c),
    decreases ps.len() - i,
{
    if i < ps.len() {
        lemma_strip_after_prefix(raw, ps, i + 1, c);
        if is_embedded_photo_spec(ps[i]) {
            let e = ps[i].end;
            assert(ps[i].start <= ps[i].end <= raw.len());
            assert forall|j: int| i + 1 <= j < ps.len() implies e <= #[trigger] ps[j].start by {
                assert(ps[i].end <= ps[j].start);
            }
            lemma_strip_after_prefix(raw, ps, i + 1, e);
            let t = strip_after(raw, ps, i + 1);
            assert(strip_after(raw, ps, i).subrange(0, c) =~= t.subrange(0, c));
        }
    }
}

/// Removing the photos as `strip_photo` does, front to back, gives the same
/// bytes as removing them back to front.
proof fn lemma_strip_from_after(
    raw: Seq<u8>,
    ps: Seq<PropertyView>,
    i: int,
    cursor: int,
    acc: Seq<u8>,
)
    requires
        ordered_properties(ps, raw.len() as int),
        0 <= i <= ps.len(),
        0 <= cursor <= raw.len(),
        forall|j: int| i <= j < ps.len() ==> cursor <= #[trigger] ps[j].start,
    ensures
        cursor <= strip_after(raw, ps, i).len(),
        strip_from(raw, ps, i, cursor, acc) == acc + strip_after(raw, ps, i).subrange(
            cursor,
            strip_after(raw, ps, i).len() as int,
        ),
    decreases ps.len() - i,
{
    lemma_strip_after_prefix(raw, ps, i, cursor);
    if i < ps.len() {
        let t = strip_after(raw, ps, i + 1);
        if is_embedded_photo_spec(ps[i]) {
            let s = ps[i].start;
            let e = ps[i].end;
            assert(ps[i].start <= ps[i].end <= raw.len());
            assert forall|j: int| i + 1 <= j < ps.len() implies e <= #[trigger] ps[j].start by {
                assert(ps[i].end <= ps[j].start);
            }
            lemma_strip_from_after(raw, ps, i + 1, e, acc + raw.subrange(cursor, s));
            lemma_strip_after_prefix(raw, ps, i + 1, e);
            assert(t.subrange(cursor, s) =~= raw.subrange(cursor, s)) by {
                assert(t.subrange(cursor, s) =~= t.subrange(0, e).subrange(cursor, s));
                assert(raw.subrange(cursor, s) =~= raw.subrange(0, e).subrange(cursor, s));
            }
            let r = strip_after(raw, ps, i);
            assert(r.subrange(cursor, r.len() as int) =~= t.subrange(cursor, s) + t.subrange(
                e,
                t.len() as int,
            ));
        } else {
            assert forall|j: int| i + 1 <= j < ps.len() implies cursor <= #[trigger] ps[j].start by {
            }
            lemma_strip_from_after(raw, ps, i + 1, cursor, acc);
        }
    } else {
        assert(raw.subrange(cursor, raw.len() as int) =~= strip_after(raw, ps, i).subrange(
            cursor,
            strip_after(raw, ps, i).len() as int,
        ));
    }
}

proof fn lemma_photo_not_structural(p: PropertyView)
    requires
        is_embedded_photo_spec(p),
    ensures
        !is_marker(p, begin_word()),
        !is_marker(p, end_word()),
        !eq_ignore_case(p.name, version_word()),
        !eq_ignore_case(p.name, uid_word()),
{
    assert(lower_seq(p.name) == lower_seq(photo_word()));
    assert(lower_seq(photo_word()).len() == 5);
    assert(lower_seq(photo_word())[0] == 'p');
    assert(lower_seq(begin_word())[0] == 'b');
    assert(lower_seq(end_word()).len() == 3);
    assert(lower_seq(version_word()).len() == 7);
    assert(lower_seq(uid_word()).len() == 3);
}

/// Removing the photos from `i` on, later ones first, leaves a card at each
/// step: the lines before `i` as they were, the other properties in order,
/// and the same UID.
proof fn lemma_strip_after_parses(v: VCardView, i: int)
    requires
        parse_card_spec(v.raw) == Ok::<VCardView, VCardErrorView>(v),
        0 <= i <= v.properties.len(),
    ensures
        ({
            let t = strip_after(v.raw, v.properties, i);
            &&& parse_card_spec(t) is Ok
            &&& unfold_spec(t).take(i) == unfold_spec(v.raw).take(i)
            &&& unpositioned(parse_card_spec(t)->Ok_0.properties) == unpositioned(
                v.properties.take(i) + kept_from(v.properties, i),
            )
            &&& parse_card_spec(t)->Ok_0.uid == v.uid
        }),
    decreases v.properties.len() - i,
{
    let ps = v.properties;
    let raw = v.raw;
    let l = unfold_spec(raw);
    super::parser::lemma_parse_lines_spans(l, 0, seq![]);
    if i == ps.len() {
        assert(ps.take(i) =~= ps);
        assert(ps.take(i) + kept_from(ps, i) =~= ps);
    } else {
        lemma_strip_after_parses(v, i + 1);
        let t = strip_after(raw, ps, i + 1);
        let q = parse_card_spec(t)->Ok_0.properties;
        let before = ps.take(i + 1) + kept_from(ps, i + 1);
        assert(q.len() == unpositioned(q).len());
        super::parser::lemma_parse_lines_spans(unfold_spec(t), 0, seq![]);
        assert(unpositioned(before).len() == before.len());
        assert(unfold_spec(t).len() == q.len());
        assert(q.len() >= i + 1);
        if !is_embedded_photo_spec(ps[i]) {
            assert(ps.take(i) + kept_from(ps, i) =~= before);
            assert(unfold_spec(t).take(i) =~= unfold_spec(t).take(i + 1).take(i));
            assert(l.take(i) =~= l.take(i + 1).take(i));
        } else {
            lemma_photo_not_structural(ps[i]);
            assert(check_structure_spec(ps) is Ok);
            assert(is_marker(ps[0], begin_word()));
            assert(i >= 1);
            assert(without_position(q[i]) == unpositioned(q)[i]);
            assert(unpositioned(before)[i] == without_position(ps[i]));
            assert(without_position(q[i]) == without_position(ps[i]));
            lemma_remove_property(t, i);
            let m = unfold_spec(t);
            assert(m[i] == m.take(i + 1)[i]);
            assert(l[i] == l.take(i + 1)[i]);
            assert(m[i] == l[i]);
            assert(ps[i].start == l[i].start && ps[i].end == l[i].end);
            assert(m.take(i) =~= l.take(i)) by {
                assert(m.take(i) =~= m.take(i + 1).take(i));
                assert(l.take(i) =~= l.take(i + 1).take(i));
            }
            assert(unpositioned(q.remove(i)) =~= unpositioned(ps.take(i) + kept_from(ps, i))) by {
                assert(unpositioned(q.remove(i)) =~= unpositioned(q).remove(i));
                assert(unpositioned(ps.take(i) + kept_from(ps, i)) =~= unpositioned(before).remove(
                    i,
                ));
            }
        }
    }
}

/// Removing a card's embedded photos leaves a card: the remaining bytes
/// parse, to the other properties in order and the same UID.
pub proof fn lemma_strip_photo_parses(v: VCardView)
    requires
        parse_card_spec(v.raw) == Ok::<VCardView, VCardErrorView>(v),
    ensures
        parse_card_spec(without_photo_bytes(v)) is Ok,
        unpositioned(parse_card_spec(without_photo_bytes(v))->Ok_0.properties) == unpositioned(
            without_photos(v.properties),
        ),
        parse_card_spec(without_photo_bytes(v))->Ok_0.uid == v.uid,
{
    lemma_card_spans(v.raw, v);
    lemma_strip_after_parses(v, 0);
    lemma_strip_from_after(v.raw, v.properties, 0, 0, seq![]);
    let t = strip_after(v.raw, v.properties, 0);
    assert(t.subrange(0, t.len() as int) =~= t);
    assert(Seq::<u8>::empty() + t =~= t);
    assert(v.properties.take(0) + kept_from(v.properties, 0) =~= without_photos(v.properties));
}


proof fn lemma_kept_excluded(ps: Seq<PropertyView>, i: int)
    requires
        0 <= i <= ps.len(),
    ensures
        canonical_form_spec(ps.take(i) + kept_from(ps, i), true) == canonical_form_spec(ps, true),
    decreases ps.len() - i,
{
    if i == ps.len() {
        assert(ps.take(i) + kept_from(ps, i) =~= ps);
    } else {
        lemma_kept_excluded(ps, i + 1);
        if is_embedded_photo_spec(ps[i]) {
            assert(is_excluded(ps[i], true));
            let rest = ps.take(i) + kept_from(ps, i);
            assert(rest.insert(i, ps[i]) =~= ps.take(i + 1) + kept_from(ps, i + 1));
            lemma_excluded_property_ignored(rest, ps[i], i, true);
        } else {
            assert(ps.take(i) + kept_from(ps, i) =~= ps.take(i + 1) + kept_from(ps, i + 1));
        }
    }
}

/// Leaving out the embedded photos does not change the canonical form that
/// leaves out photos.
pub proof fn lemma_without_photos_same_form(ps: Seq<PropertyView>)
    ensures
        canonical_form_spec(without_photos(ps), true) == canonical_form_spec(ps, true),
{
    lemma_kept_excluded(ps, 0);
    assert(ps.take(0) + kept_from(ps, 0) =~= without_photos(ps));
}

/// A card and its bytes with the embedded photos removed have the same
/// canonical form when photos are left out, so the same hash.
pub proof fn lemma_strip_photo_same_form(v: VCardView)
    requires
        parse_card_spec(v.raw) == Ok::<VCardView, VCardErrorView>(v),
    ensures
        canonical_form_spec(parse_card_spec(without_photo_bytes(v))->Ok_0.properties, true)
            == canonical_form_spec(v.properties, true),
{
    lemma_strip_photo_parses(v);
    let q = parse_card_spec(without_photo_bytes(v))->Ok_0.properties;
    lemma_canonical_form_reorder(q, without_photos(v.properties), true);
    lemma_without_photos_same_form(v.properties);
}

} // verus!

//! Why the layout of a card's bytes does not matter to its parse or its
//! canonical form: line breaks (CRLF or LF) only end physical lines, and
//! folding only splits a logical line over several physical ones.

use vstd::prelude::*;
use crate::text::trim;
use super::canonical::canonical_form_spec;
use super::card::parse_card_spec;
use super::parser::{
    check_structure_spec, first_marker_from, first_named_from, parse_line_spec, parse_lines_from,
    uid_word,
};
use super::reorder::{lemma_canonical_form_reorder, without_position};
use super::unfold::{
    body_start, content, lemma_line_len, line_len, step_acc, unfold_from, unfold_spec, LineView,
};
use super::PropertyView;

verus! {

// ---------------------------------------------------------------------------
// Physical lines
// ---------------------------------------------------------------------------

/// The physical lines of `raw` from `start` on, each without its line
/// break.
pub open spec fn physical_from(raw: Seq<u8>, start: int) -> Seq<Seq<u8>>
    decreases raw.len() - start,
{
    if start < 0 || start >= raw.len() {
        seq![]
    } else {
        let end = start + line_len(raw, start);
        proof {
            lemma_line_len(raw, start);
        }
        seq![content(raw, start, end)] + physical_from(raw, end)
    }
}

/// The physical lines of a card (after a byte order mark, if any), each
/// without its line break.
pub open spec fn physical_lines(raw: Seq<u8>) -> Seq<Seq<u8>> {
    physical_from(raw, body_start(raw))
}

/// Logical lines without their byte ranges.
pub open spec fn unplaced(ls: Seq<LineView>) -> Seq<LineView> {
    ls.map_values(|l: LineView| LineView { start: 0, end: 0, line: l.line, bytes: l.bytes })
}

/// Unfolding physical lines `cs`, numbered after `line`, into `acc`.
pub open spec fn unfold_lines(cs: Seq<Seq<u8>>, line: int, acc: Seq<LineView>) -> Seq<LineView>
    decreases cs.len(),
{
    if cs.len() == 0 {
        acc
    } else {
        unfold_lines(cs.drop_first(), line + 1, step_acc(acc, cs[0], 0, 0, line + 1))
    }
}

proof fn lemma_step_unplaced(acc: Seq<LineView>, c: Seq<u8>, start: int, end: int, n: int)
    ensures
        unplaced(step_acc(acc, c, start, end, n)) == step_acc(unplaced(acc), c, 0, 0, n),
{
    let l = step_acc(acc, c, start, end, n);
    let r = step_acc(unplaced(acc), c, 0, 0, n);
    assert(unplaced(l) =~= r);
}

proof fn lemma_unfold_unplaced(raw: Seq<u8>, start: int, line: int, acc: Seq<LineView>)
    requires
        0 <= start <= raw.len(),
    ensures
        unplaced(unfold_from(raw, start, line, acc)) == unfold_lines(
            physical_from(raw, start),
            line,
            unplaced(acc),
        ),
    decreases raw.len() - start,
{
    if start < raw.len() {
        lemma_line_len(raw, start);
        let end = start + line_len(raw, start);
        let c = content(raw, start, end);
        lemma_step_unplaced(acc, c, start, end, line + 1);
        lemma_unfold_unplaced(raw, end, line + 1, step_acc(acc, c, start, end, line + 1));
        let cs = physical_from(raw, start);
        assert(cs[0] == c);
        assert(cs.drop_first() =~= physical_from(raw, end));
    } else {
        assert(physical_from(raw, start) =~= Seq::<Seq<u8>>::empty());
    }
}

// ---------------------------------------------------------------------------
// Parsing logical lines
// ---------------------------------------------------------------------------

/// The contents of logical lines.
pub open spec fn line_bytes(ls: Seq<LineView>) -> Seq<Seq<u8>> {
    ls.map_values(|l: LineView| l.bytes)
}

/// Properties without their place in the card.
pub open spec fn unpositioned(ps: Seq<PropertyView>) -> Seq<PropertyView> {
    ps.map_values(|p: PropertyView| without_position(p))
}

pub(crate) proof fn lemma_parse_line_content(l1: LineView, l2: LineView)
    requires
        l1.bytes == l2.bytes,
    ensures
        parse_line_spec(l1) is Ok <==> parse_line_spec(l2) is Ok,
        parse_line_spec(l1) is Ok ==> without_position(parse_line_spec(l1)->Ok_0)
            == without_position(parse_line_spec(l2)->Ok_0),
{
}

proof fn lemma_parse_lines_content(
    l1: Seq<LineView>,
    l2: Seq<LineView>,
    i: int,
    a1: Seq<PropertyView>,
    a2: Seq<PropertyView>,
)
    requires
        0 <= i <= l1.len(),
        line_bytes(l1) == line_bytes(l2),
        unpositioned(a1) == unpositioned(a2),
    ensures
        parse_lines_from(l1, i, a1) is Ok <==> parse_lines_from(l2, i, a2) is Ok,
        parse_lines_from(l1, i, a1) is Ok ==> unpositioned(parse_lines_from(l1, i, a1)->Ok_0)
            == unpositioned(parse_lines_from(l2, i, a2)->Ok_0),
    decreases l1.len() - i,
{
    assert(l1.len() == line_bytes(l1).len() && l2.len() == line_bytes(l2).len());
    if i < l1.len() {
        assert(l1[i].bytes == line_bytes(l1)[i] && l2[i].bytes == line_bytes(l2)[i]);
        lemma_parse_line_content(l1[i], l2[i]);
        if parse_line_spec(l1[i]) is Ok {
            let p1 = parse_line_spec(l1[i])->Ok_0;
            let p2 = parse_line_spec(l2[i])->Ok_0;
            assert(unpositioned(a1.push(p1)) =~= unpositioned(a2.push(p2))) by {
                assert(unpositioned(a1.push(p1)) =~= unpositioned(a1).push(without_position(p1)));
                assert(unpositioned(a2.push(p2)) =~= unpositioned(a2).push(without_position(p2)));
            }
            lemma_parse_lines_content(l1, l2, i + 1, a1.push(p1), a2.push(p2));
        }
    }
}

proof fn lemma_first_marker_content(
    p1: Seq<PropertyView>,
    p2: Seq<PropertyView>,
    name: Seq<char>,
    i: int,
)
    requires
        unpositioned(p1) == unpositioned(p2),
    ensures
        first_marker_from(p1, name, i) == first_marker_from(p2, name, i),
    decreases p1.len() - i,
{
    assert(p1.len() == unpositioned(p1).len() && p2.len() == unpositioned(p2).len());
    if 0 <= i < p1.len() {
        assert(without_position(p1[i]) == unpositioned(p1)[i]);
        assert(without_position(p2[i]) == unpositioned(p2)[i]);
        lemma_first_marker_content(p1, p2, name, i + 1);
    }
}

pub(crate) proof fn lemma_first_named_content(
    p1: Seq<PropertyView>,
    p2: Seq<PropertyView>,
    name: Seq<char>,
    i: int,
)
    requires
        unpositioned(p1) == unpositioned(p2),
    ensures
        first_named_from(p1, name, i) == first_named_from(p2, name, i),
    decreases p1.len() - i,
{
    assert(p1.len() == unpositioned(p1).len() && p2.len() == unpositioned(p2).len());
    if 0 <= i < p1.len() {
        assert(without_position(p1[i]) == unpositioned(p1)[i]);
        assert(without_position(p2[i]) == unpositioned(p2)[i]);
        lemma_first_named_content(p1, p2, name, i + 1);
    }
}

pub(crate) proof fn lemma_first_named_in_range(ps: Seq<PropertyView>, name: Seq<char>, i: int)
    requires
        0 <= i,
    ensures
        first_named_from(ps, name, i) matches Some(u) ==> i <= u < ps.len(),
    decreases ps.len() - i,
{
    if i < ps.len() {
        lemma_first_named_in_range(ps, name, i + 1);
    }
}

pub(crate) proof fn lemma_structure_content(p1: Seq<PropertyView>, p2: Seq<PropertyView>)
    requires
        unpositioned(p1) == unpositioned(p2),
    ensures
        check_structure_spec(p1) is Ok <==> check_structure_spec(p2) is Ok,
{
    assert(p1.len() == unpositioned(p1).len() && p2.len() == unpositioned(p2).len());
    assert forall|k: int| 0 <= k < p1.len() implies without_position(#[trigger] p1[k])
        == without_position(p2[k]) by {
        assert(without_position(p1[k]) == unpositioned(p1)[k]);
        assert(without_position(p2[k]) == unpositioned(p2)[k]);
    }
    lemma_first_marker_content(p1, p2, super::parser::end_word(), 0);
    lemma_first_named_content(p1, p2, super::parser::version_word(), 0);
    if p1.len() > 0 {
        assert(without_position(p1[0]) == without_position(p2[0]));
    }
    if exists|k: int| 1 <= k < p1.len() && #[trigger] super::parser::is_marker(
        p1[k],
        super::parser::begin_word(),
    ) {
        let k = choose|k: int| 1 <= k < p1.len() && #[trigger] super::parser::is_marker(
            p1[k],
            super::parser::begin_word(),
        );
        assert(without_position(p1[k]) == without_position(p2[k]));
        assert(super::parser::is_marker(p2[k], super::parser::begin_word()));
    }
    if exists|k: int| 1 <= k < p2.len() && #[trigger] super::parser::is_marker(
        p2[k],
        super::parser::begin_word(),
    ) {
        let k = choose|k: int| 1 <= k < p2.len() && #[trigger] super::parser::is_marker(
            p2[k],
            super::parser::begin_word(),
        );
        assert(without_position(p1[k]) == without_position(p2[k]));
        assert(super::parser::is_marker(p1[k], super::parser::begin_word()));
    }
    match first_named_from(p1, super::parser::version_word(), 0) {
        Some(v) => {
            lemma_first_named_in_range(p1, super::parser::version_word(), 0);
            assert(without_position(p1[v]) == without_position(p2[v]));
        },
        None => {},
    }
}

// ---------------------------------------------------------------------------
// The laws
// ---------------------------------------------------------------------------

/// Cards whose logical lines have the same contents (however each is folded
/// over physical lines) parse alike: one parses exactly when the other
/// does, and then they have the same UID and the same canonical form.
pub proof fn lemma_folding_does_not_matter(r1: Seq<u8>, r2: Seq<u8>, x: bool)
    requires
        line_bytes(unfold_spec(r1)) == line_bytes(unfold_spec(r2)),
    ensures
        parse_card_spec(r1) is Ok <==> parse_card_spec(r2) is Ok,
        parse_card_spec(r1) is Ok ==> parse_card_spec(r1)->Ok_0.uid == parse_card_spec(r2)->Ok_0.uid
            && canonical_form_spec(parse_card_spec(r1)->Ok_0.properties, x) == canonical_form_spec(
            parse_card_spec(r2)->Ok_0.properties,
            x,
        ),
{
    let l1 = unfold_spec(r1);
    let l2 = unfold_spec(r2);
    assert(unpositioned(Seq::<PropertyView>::empty()) =~= unpositioned(
        Seq::<PropertyView>::empty(),
    ));
    lemma_parse_lines_content(l1, l2, 0, seq![], seq![]);
    if parse_lines_from(l1, 0, seq![]) is Ok {
        let p1 = parse_lines_from(l1, 0, seq![])->Ok_0;
        let p2 = parse_lines_from(l2, 0, seq![])->Ok_0;
        lemma_structure_content(p1, p2);
        lemma_first_named_content(p1, p2, uid_word(), 0);
        assert(p1.len() == unpositioned(p1).len() && p2.len() == unpositioned(p2).len());
        match first_named_from(p1, uid_word(), 0) {
            Some(u) => {
                lemma_first_named_in_range(p1, uid_word(), 0);
                assert(without_position(p1[u]) == unpositioned(p1)[u]);
                assert(without_position(p2[u]) == unpositioned(p2)[u]);
                assert(trim(p1[u].value) == trim(p2[u].value));
            },
            None => {},
        }
        lemma_canonical_form_reorder(p1, p2, x);
    }
}

/// Line breaks do not matter: cards with the same physical lines, each
/// ending in CRLF or LF as it may, unfold into the same logical lines, so
/// they parse alike and have the same canonical form.
pub proof fn lemma_line_breaks_do_not_matter(r1: Seq<u8>, r2: Seq<u8>, x: bool)
    requires
        physical_lines(r1) == physical_lines(r2),
    ensures
        unplaced(unfold_spec(r1)) == unplaced(unfold_spec(r2)),
        parse_card_spec(r1) is Ok <==> parse_card_spec(r2) is Ok,
        parse_card_spec(r1) is Ok ==> parse_card_spec(r1)->Ok_0.uid == parse_card_spec(r2)->Ok_0.uid
            && canonical_form_spec(parse_card_spec(r1)->Ok_0.properties, x) == canonical_form_spec(
            parse_card_spec(r2)->Ok_0.properties,
            x,
        ),
{
    lemma_unfold_unplaced(r1, body_start(r1), 0, seq![]);
    lemma_unfold_unplaced(r2, body_start(r2), 0, seq![]);
    assert(unplaced(Seq::<LineView>::empty()) =~= Seq::<LineView>::empty());
    let u1 = unplaced(unfold_spec(r1));
    let u2 = unplaced(unfold_spec(r2));
    assert(line_bytes(unfold_spec(r1)) =~= line_bytes(unfold_spec(r2))) by {
        assert(unfold_spec(r1).len() == u1.len() && unfold_spec(r2).len() == u2.len());
        assert forall|k: int| 0 <= k < unfold_spec(r1).len() implies #[trigger] unfold_spec(
            r1,
        )[k].bytes == unfold_spec(r2)[k].bytes by {
            assert(u1[k].bytes == unfold_spec(r1)[k].bytes);
            assert(u2[k].bytes == unfold_spec(r2)[k].bytes);
        }
    }
    lemma_folding_does_not_matter(r1, r2, x);
}


/// What a logical line with contents `b` parses to, apart from where it
/// stands.
pub open spec fn line_property(b: Seq<u8>) -> PropertyView {
    without_position(parse_line_spec(LineView { start: 0, end: 0, line: 0, bytes: b })->Ok_0)
}

proof fn lemma_properties_of_lines(r: Seq<u8>)
    requires
        parse_card_spec(r) is Ok,
    ensures
        unpositioned(parse_card_spec(r)->Ok_0.properties) == line_bytes(unfold_spec(r)).map_values(
            |b: Seq<u8>| line_property(b),
        ),
{
    let l = unfold_spec(r);
    let ps = parse_card_spec(r)->Ok_0.properties;
    super::removal::lemma_parse_lines_each(l, 0, seq![]);
    assert(ps == parse_lines_from(l, 0, seq![])->Ok_0);
    assert forall|k: int| 0 <= k < l.len() implies #[trigger] without_position(ps[k])
        == line_property(l[k].bytes) by {
        assert(ps[k] == parse_line_spec(l[k])->Ok_0);
        lemma_parse_line_content(l[k], LineView { start: 0, end: 0, line: 0, bytes: l[k].bytes });
    }
    assert(unpositioned(ps) =~= line_bytes(l).map_values(|b: Seq<u8>| line_property(b)));
}

/// The order of a card's lines does not matter: cards that both parse and
/// whose logical lines are the same up to order have the same canonical
/// form.
pub proof fn lemma_line_order_does_not_matter(r1: Seq<u8>, r2: Seq<u8>, x: bool)
    requires
        line_bytes(unfold_spec(r1)).to_multiset() == line_bytes(unfold_spec(r2)).to_multiset(),
        parse_card_spec(r1) is Ok,
        parse_card_spec(r2) is Ok,
    ensures
        canonical_form_spec(parse_card_spec(r1)->Ok_0.properties, x) == canonical_form_spec(
            parse_card_spec(r2)->Ok_0.properties,
            x,
        ),
{
    lemma_properties_of_lines(r1);
    lemma_properties_of_lines(r2);
    super::regroup::lemma_map_same_elements(
        line_bytes(unfold_spec(r1)),
        line_bytes(unfold_spec(r2)),
        |b: Seq<u8>| line_property(b),
    );
    lemma_canonical_form_reorder(
        parse_card_spec(r1)->Ok_0.properties,
        parse_card_spec(r2)->Ok_0.properties,
        x,
    );
}

} // verus!

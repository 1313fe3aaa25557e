//! Embedded (base64) photos: their estimated size, and removing them.

use vstd::prelude::*;
use crate::text::eq_ignore_case;
use super::canonical::{base64_word, canonical_form_spec, encoding_word, photo_word};
use super::card::{lemma_card_spans, ordered_properties, parse_card_spec};
use super::layout::unpositioned;
use super::parser::{find_unquoted_from, parse_line_spec};
use super::removal::{lemma_strip_photo_parses, lemma_strip_photo_same_form, without_photos};
use super::unfold::{content, is_fold, lemma_line_len, line_len, step_acc, unfold_from, LineView};
use super::{ParamView, Property, PropertyView, VCard, VCardErrorView, VCardView};

verus! {

/// `ENCODING=b` or `ENCODING=BASE64`, in any case.
pub open spec fn is_base64_param(p: ParamView) -> bool {
    eq_ignore_case(p.name, encoding_word()) && exists|j: int|
        0 <= j < p.values.len() && (eq_ignore_case(#[trigger] p.values[j], seq!['b'])
            || eq_ignore_case(p.values[j], base64_word()))
}

/// A `PHOTO` whose value is base64 data rather than a URI.
pub open spec fn is_embedded_photo_spec(p: PropertyView) -> bool {
    eq_ignore_case(p.name, photo_word()) && exists|k: int|
        0 <= k < p.params.len() && is_base64_param(#[trigger] p.params[k])
}

/// `u8::is_ascii_whitespace`.
pub open spec fn is_ascii_ws(b: u8) -> bool {
    b == 32 || b == 9 || b == 10 || b == 12 || b == 13
}

/// The bytes of `b` that are not ASCII white space.
pub open spec fn symbols(b: Seq<u8>) -> Seq<u8>
    decreases b.len(),
{
    if b.len() == 0 {
        seq![]
    } else if is_ascii_ws(b.last()) {
        symbols(b.drop_last())
    } else {
        symbols(b.drop_last()).push(b.last())
    }
}

/// How many `=` end `s`.
pub open spec fn trailing_padding(s: Seq<u8>) -> nat
    decreases s.len(),
{
    if s.len() == 0 || s.last() != 61 {
        0
    } else {
        1 + trailing_padding(s.drop_last())
    }
}

/// Decoded length of base64 text without decoding it: three bytes per four
/// symbols, less the padding, never below zero.
pub open spec fn decoded_len_spec(v: Seq<char>) -> nat {
    let s = symbols(vstd::utf8::encode_utf8(v));
    let estimate = s.len() * 3 / 4;
    if estimate >= trailing_padding(s) {
        (estimate - trailing_padding(s)) as nat
    } else {
        0
    }
}

/// The summed decoded size of the embedded photos among `ps`.
pub open spec fn photo_total(ps: Seq<PropertyView>) -> nat
    decreases ps.len(),
{
    if ps.len() == 0 {
        0
    } else {
        photo_total(ps.drop_last()) + if is_embedded_photo_spec(ps.last()) {
            decoded_len_spec(ps.last().value)
        } else {
            0
        }
    }
}

pub open spec fn has_embedded_photo(ps: Seq<PropertyView>) -> bool {
    exists|k: int| 0 <= k < ps.len() && is_embedded_photo_spec(#[trigger] ps[k])
}

/// The card's bytes from `cursor` on, with the byte ranges of the embedded
/// photos among `ps[i..]` left out, after the bytes `acc` kept so far.
pub open spec fn strip_from(
    raw: Seq<u8>,
    ps: Seq<PropertyView>,
    i: int,
    cursor: int,
    acc: Seq<u8>,
) -> Seq<u8>
    decreases ps.len() - i,
{
    if i < 0 || i >= ps.len() {
        acc + raw.subrange(cursor, raw.len() as int)
    } else if is_embedded_photo_spec(ps[i]) {
        strip_from(raw, ps, i + 1, ps[i].end, acc + raw.subrange(cursor, ps[i].start))
    } else {
        strip_from(raw, ps, i + 1, cursor, acc)
    }
}

/// A card's bytes with every embedded `PHOTO` property removed, all other
/// bytes unchanged.
pub open spec fn without_photo_bytes(card: VCardView) -> Seq<u8> {
    strip_from(card.raw, card.properties, 0, 0, seq![])
}

fn is_base64_param_exec(p: &super::Param) -> (r: bool)
    ensures
        r == is_base64_param(p@),
{
    let enc = vec!['E', 'N', 'C', 'O', 'D', 'I', 'N', 'G'];
    let own = crate::text::chars_of(p.name.as_str());
    if !crate::text::eq_ignore_case_vec(&own, &enc) {
        return false;
    }
    let b = vec!['b'];
    let b64 = vec!['B', 'A', 'S', 'E', '6', '4'];
    let ghost vals = p@.values;
    let mut j: usize = 0;
    while j < p.values.len()
        invariant
            j <= p.values.len(),
            vals == p@.values,
            vals.len() == p.values.len(),
            b@ == seq!['b'],
            b64@ == base64_word(),
            eq_ignore_case(p@.name, encoding_word()),
            forall|x: int| 0 <= x < j ==> !(eq_ignore_case(#[trigger] vals[x], seq!['b'])
                || eq_ignore_case(vals[x], base64_word())),
        decreases p.values.len() - j,
    {
        let v = crate::text::chars_of(p.values[j].as_str());
        assert(v@ == vals[j as int]);
        if crate::text::eq_ignore_case_vec(&v, &b) || crate::text::eq_ignore_case_vec(&v, &b64) {
            assert(eq_ignore_case(vals[j as int], seq!['b']) || eq_ignore_case(
                vals[j as int],
                base64_word(),
            ));
            return true;
        }
        j += 1;
    }
    false
}

/// Whether `property` is a `PHOTO` holding base64 data.
pub fn is_embedded_photo(property: &Property) -> (r: bool)
    ensures
        r == is_embedded_photo_spec(property@),
{
    let photo = vec!['P', 'H', 'O', 'T', 'O'];
    if !property.is_chars(&photo) {
        return false;
    }
    let ghost ps = property@.params;
    let mut k: usize = 0;
    while k < property.params.len()
        invariant
            k <= property.params.len(),
            ps == property@.params,
            ps.len() == property.params.len(),
            eq_ignore_case(property@.name, photo_word()),
            forall|x: int| 0 <= x < k ==> !is_base64_param(#[trigger] ps[x]),
        decreases property.params.len() - k,
    {
        assert(ps[k as int] == property.params[k as int]@);
        if is_base64_param_exec(&property.params[k]) {
            assert(is_base64_param(ps[k as int]));
            return true;
        }
        k += 1;
    }
    false
}

/// Decoded length of base64 text without decoding it.
pub fn decoded_len(value: &str) -> (r: u64)
    ensures
        r == decoded_len_spec(value@),
{
    let b = value.as_bytes();
    let ghost bv = b@;
    let mut count: usize = 0;
    let mut pad: usize = 0;
    let mut i: usize = 0;
    while i < b.len()
        invariant
            i <= b.len(),
            bv == b@,
            count == symbols(bv.take(i as int)).len(),
            pad == trailing_padding(symbols(bv.take(i as int))),
            pad <= count <= i,
        decreases b.len() - i,
    {
        let ghost t = bv.take(i + 1);
        assert(t.drop_last() == bv.take(i as int));
        assert(t.last() == b[i as int]);
        let c = b[i];
        if !(c == 32 || c == 9 || c == 10 || c == 12 || c == 13) {
            let ghost s = symbols(bv.take(i as int));
            assert(symbols(t) == s.push(c));
            assert(symbols(t).drop_last() == s);
            count += 1;
            if c == 61 {
                pad += 1;
            } else {
                pad = 0;
            }
        }
        i += 1;
    }
    assert(bv.take(b.len() as int) == bv);
    let n = count as u64;
    let estimate = n / 4 * 3 + n % 4 * 3 / 4;
    assert(n * 3 / 4 == n / 4 * 3 + n % 4 * 3 / 4);
    let p = pad as u64;
    if estimate >= p {
        estimate - p
    } else {
        0
    }
}

impl VCard {
    /// Estimated decoded size in bytes of the embedded (base64) photo data,
    /// summed over all embedded `PHOTO` properties. `None` when the card has
    /// no embedded photo; URI-valued photos have no size.
    pub fn photo_size(&self) -> (r: Option<u64>)
        ensures
            match r {
                Some(n) => has_embedded_photo(self@.properties) && n == photo_total(
                    self@.properties,
                ),
                None => !has_embedded_photo(self@.properties),
            },
    {
        proof {
            use_type_invariant(self);
            lemma_photo_total_fits(self@);
        }
        assert(self.raw@.len() == self.raw.len());
        let ghost ps = self@.properties;
        let mut any = false;
        let mut total: u64 = 0;
        let mut i: usize = 0;
        while i < self.properties.len()
            invariant
                i <= self.properties.len(),
                ps == self@.properties,
                ps.len() == self.properties.len(),
                photo_total(ps) <= u64::MAX,
                total == photo_total(ps.take(i as int)),
                any == has_embedded_photo(ps.take(i as int)),
            decreases self.properties.len() - i,
        {
            let ghost t = ps.take(i + 1);
            assert(t.drop_last() == ps.take(i as int));
            assert(t.last() == ps[i as int]);
            proof {
                lemma_photo_total_prefix(ps, i + 1);
            }
            let p = &self.properties[i];
            if is_embedded_photo(p) {
                let d = decoded_len(p.value.as_str());
                total = total + d;
                any = true;
                assert(is_embedded_photo_spec(t[i as int]));
            } else {
                assert forall|k: int| 0 <= k < t.len() && is_embedded_photo_spec(
                    #[trigger] t[k],
                ) implies 0 <= k < ps.take(i as int).len() && is_embedded_photo_spec(
                    ps.take(i as int)[k],
                ) by {
                    assert(k != i);
                    assert(t[k] == ps.take(i as int)[k]);
                }
            }
            i += 1;
        }
        assert(ps.take(self.properties.len() as int) == ps);
        if any {
            Some(total)
        } else {
            None
        }
    }
}

proof fn lemma_photo_total_prefix(ps: Seq<PropertyView>, n: int)
    requires
        0 <= n <= ps.len(),
    ensures
        photo_total(ps.take(n)) <= photo_total(ps),
    decreases ps.len(),
{
    if n < ps.len() {
        assert(ps.drop_last().take(n) == ps.take(n));
        lemma_photo_total_prefix(ps.drop_last(), n);
    } else {
        assert(ps.take(n) == ps);
    }
}

// ---------------------------------------------------------------------------
// Why the photo sizes of a card add up within its length
// ---------------------------------------------------------------------------

proof fn lemma_encode_append(a: Seq<char>, b: Seq<char>)
    ensures
        vstd::utf8::encode_utf8(a + b) == vstd::utf8::encode_utf8(a) + vstd::utf8::encode_utf8(b),
    decreases a.len(),
{
    if a.len() > 0 {
        lemma_encode_append(a.drop_first(), b);
        assert((a + b).drop_first() =~= a.drop_first() + b);
        assert((a + b)[0] == a[0]);
    } else {
        assert(a + b =~= b);
    }
}

proof fn lemma_symbols_len(b: Seq<u8>)
    ensures
        symbols(b).len() <= b.len(),
    decreases b.len(),
{
    if b.len() > 0 {
        lemma_symbols_len(b.drop_last());
    }
}

/// The decoded size of a value is at most its length in bytes.
proof fn lemma_decoded_len_bound(v: Seq<char>)
    ensures
        decoded_len_spec(v) <= vstd::utf8::encode_utf8(v).len(),
{
    lemma_symbols_len(vstd::utf8::encode_utf8(v));
    let n = symbols(vstd::utf8::encode_utf8(v)).len();
    assert(n * 3 / 4 <= n) by (nonlinear_arith);
}

/// Every unfolded line has no more bytes than the span it covers.
proof fn lemma_unfold_bytes_fit(raw: Seq<u8>, p: int, n: int, acc: Seq<LineView>)
    requires
        0 <= p,
        acc.len() > 0 ==> acc.last().end <= p,
        forall|j: int| 0 <= j < acc.len() ==> #[trigger] acc[j].bytes.len() <= acc[j].end - acc[j].start,
    ensures
        forall|j: int|
            0 <= j < unfold_from(raw, p, n, acc).len() ==> #[trigger] unfold_from(
                raw,
                p,
                n,
                acc,
            )[j].bytes.len() <= unfold_from(raw, p, n, acc)[j].end - unfold_from(
                raw,
                p,
                n,
                acc,
            )[j].start,
    decreases raw.len() - p,
{
    if p < raw.len() {
        lemma_line_len(raw, p);
        let end = p + line_len(raw, p);
        let c = content(raw, p, end);
        let next = step_acc(acc, c, p, end, n + 1);
        assert(c.len() <= end - p);
        assert forall|j: int| 0 <= j < next.len() implies #[trigger] next[j].bytes.len() <= next[j].end
            - next[j].start by {
            if j < acc.len() && !(j == acc.len() - 1 && c.len() > 0 && is_fold(c[0])) {
                assert(next[j] == acc[j]);
            }
        }
        lemma_unfold_bytes_fit(raw, end, n + 1, next);
        assert(unfold_from(raw, p, n, acc) == unfold_from(raw, end, n + 1, next));
    }
}

/// The value of a property parsed from a line has no more bytes than the
/// line.
proof fn lemma_value_fits(l: LineView)
    requires
        parse_line_spec(l) is Ok,
    ensures
        vstd::utf8::encode_utf8(parse_line_spec(l)->Ok_0.value).len() <= l.bytes.len(),
{
    let text = vstd::utf8::decode_utf8(l.bytes);
    let colon = find_unquoted_from(text, ':', 0, false)->Some_0;
    super::parser::lemma_find_in_bounds(text, ':', 0, false);
    vstd::utf8::decode_utf8_encode_utf8(l.bytes);
    assert(text =~= text.take(colon + 1) + text.skip(colon + 1));
    lemma_encode_append(text.take(colon + 1), text.skip(colon + 1));
}

proof fn lemma_photo_total_within(ps: Seq<PropertyView>, n: int)
    requires
        0 <= n <= ps.len(),
        forall|k: int| 0 <= k < ps.len() ==> 0 <= #[trigger] ps[k].start <= ps[k].end,
        forall|j: int, k: int| 0 <= j < k < ps.len() ==> #[trigger] ps[j].end <= #[trigger] ps[k].start,
        forall|k: int|
            0 <= k < ps.len() ==> vstd::utf8::encode_utf8(#[trigger] ps[k].value).len() <= ps[k].end
                - ps[k].start,
    ensures
        photo_total(ps.take(n)) <= if n == 0 {
            0
        } else {
            ps[n - 1].end
        },
    decreases n,
{
    if n > 0 {
        lemma_photo_total_within(ps, n - 1);
        assert(ps.take(n).drop_last() =~= ps.take(n - 1));
        assert(ps.take(n).last() == ps[n - 1]);
        lemma_decoded_len_bound(ps[n - 1].value);
        assert(vstd::utf8::encode_utf8(ps[n - 1].value).len() <= ps[n - 1].end - ps[n - 1].start);
        if n > 1 {
            assert(ps[n - 2].end <= ps[n - 1].start);
        }
    }
}

/// The embedded photos of a card add up to no more than its length.
pub proof fn lemma_photo_total_fits(v: VCardView)
    requires
        parse_card_spec(v.raw) == Ok::<VCardView, VCardErrorView>(v),
    ensures
        photo_total(v.properties) <= v.raw.len(),
{
    let ps = v.properties;
    let l = super::unfold::unfold_spec(v.raw);
    lemma_card_spans(v.raw, v);
    super::parser::lemma_parse_lines_spans(l, 0, seq![]);
    super::removal::lemma_parse_lines_each(l, 0, seq![]);
    lemma_unfold_bytes_fit(v.raw, super::unfold::body_start(v.raw), 0, seq![]);
    assert forall|k: int| 0 <= k < ps.len() implies vstd::utf8::encode_utf8(#[trigger] ps[k].value).len()
        <= ps[k].end - ps[k].start by {
        assert(ps[k] == parse_line_spec(l[k])->Ok_0);
        lemma_value_fits(l[k]);
        assert(l[k].bytes.len() <= l[k].end - l[k].start);
    }
    lemma_photo_total_within(ps, ps.len() as int);
    assert(ps.take(ps.len() as int) =~= ps);
    if ps.len() > 0 {
        assert(0 <= ps[ps.len() - 1].start <= ps[ps.len() - 1].end <= v.raw.len());
    }
}

impl VCard {
    /// This card with every embedded `PHOTO` property removed. All other
    /// bytes are copied unchanged: nothing is re-serialized.
    pub fn strip_photo(&self) -> (r: Self)
        ensures
            r@.raw == without_photo_bytes(self@),
            Ok::<VCardView, VCardErrorView>(r@) == parse_card_spec(without_photo_bytes(self@)),
            unpositioned(r@.properties) == unpositioned(without_photos(self@.properties)),
            r@.uid == self@.uid,
            canonical_form_spec(r@.properties, true) == canonical_form_spec(self@.properties, true),
    {
        proof {
            use_type_invariant(self);
            lemma_card_spans(self@.raw, self@);
            lemma_strip_photo_parses(self@);
            lemma_strip_photo_same_form(self@);
        }
        let ghost raw = self@.raw;
        let ghost ps = self@.properties;
        let mut out: Vec<u8> = Vec::new();
        let mut cursor: usize = 0;
        let mut i: usize = 0;
        while i < self.properties.len()
            invariant
                i <= self.properties.len(),
                raw == self.raw@,
                ps == self@.properties,
                ps.len() == self.properties.len(),
                ordered_properties(ps, raw.len() as int),
                cursor <= raw.len(),
                forall|k: int| i <= k < ps.len() ==> cursor <= #[trigger] ps[k].start,
                strip_from(raw, ps, i as int, cursor as int, out@) == without_photo_bytes(self@),
            decreases self.properties.len() - i,
        {
            let p = &self.properties[i];
            assert(ps[i as int] == p@);
            if is_embedded_photo(p) {
                let piece = super::unfold::byte_range(self.raw.as_slice(), cursor, p.start);
                super::unfold::append_bytes(&mut out, piece.as_slice());
                cursor = p.end;
                assert forall|k: int| i + 1 <= k < ps.len() implies cursor <= #[trigger] ps[k].start by {
                    assert(ps[i as int].end <= ps[k].start);
                }
            }
            i += 1;
        }
        let rest = super::unfold::byte_range(self.raw.as_slice(), cursor, self.raw.len());
        super::unfold::append_bytes(&mut out, rest.as_slice());
        match VCard::parse(out) {
            Ok(card) => card,
            Err(_) => {
                vstd::pervasive::unreached()
            },
        }
    }
}

} // verus!

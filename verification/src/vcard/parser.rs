//! Parsing unfolded lines into properties and checking card structure.

use vstd::prelude::*;
use crate::text::{is_alnum, is_digit, eq_ignore_case, trim, rows, string_of, slice_range};
use super::unfold::{LineView, LogicalLine};
use super::{Param, ParamView, Property, PropertyView, VCardError, VCardErrorView, param_views, property_views};

verus! {

// ---------------------------------------------------------------------------
// Specification
// ---------------------------------------------------------------------------

/// Position of the first `t` outside double quotes, scanning from `i` with
/// quote state `quoted`.
pub open spec fn find_unquoted_from(s: Seq<char>, t: char, i: int, quoted: bool) -> Option<int>
    decreases s.len() - i,
{
    if i < 0 || i >= s.len() {
        None
    } else {
        let q = if s[i] == '"' { !quoted } else { quoted };
        if !q && s[i] == t {
            Some(i)
        } else {
            find_unquoted_from(s, t, i + 1, q)
        }
    }
}

/// Pieces of `s` split on `d` outside double quotes, scanning from `i`.
pub open spec fn split_unquoted_from(
    s: Seq<char>,
    d: char,
    i: int,
    start: int,
    quoted: bool,
    parts: Seq<Seq<char>>,
) -> Seq<Seq<char>>
    decreases s.len() - i,
{
    if i < 0 || i >= s.len() {
        parts.push(s.subrange(start, s.len() as int))
    } else if s[i] == '"' {
        split_unquoted_from(s, d, i + 1, start, !quoted, parts)
    } else if s[i] == d && !quoted {
        split_unquoted_from(s, d, i + 1, i + 1, quoted, parts.push(s.subrange(start, i)))
    } else {
        split_unquoted_from(s, d, i + 1, start, quoted, parts)
    }
}

/// `s` split on `d` outside double quotes; never empty.
pub open spec fn split_unquoted_spec(s: Seq<char>, d: char) -> Seq<Seq<char>> {
    split_unquoted_from(s, d, 0, 0, false, seq![])
}

/// Position of the first `c` in `s` at or after `i`.
pub open spec fn first_index_from(s: Seq<char>, c: char, i: int) -> Option<int>
    decreases s.len() - i,
{
    if i < 0 || i >= s.len() {
        None
    } else if s[i] == c {
        Some(i)
    } else {
        first_index_from(s, c, i + 1)
    }
}

/// A name or group character: letters, digits, `-` (RFC 2426), plus `_` for
/// vendor extensions.
pub open spec fn is_token_char(c: char) -> bool {
    is_alnum(c) || c == '-' || c == '_'
}

pub open spec fn is_token(s: Seq<char>) -> bool {
    s.len() > 0 && forall|k: int| 0 <= k < s.len() ==> is_token_char(#[trigger] s[k])
}

/// A value with one pair of surrounding double quotes removed.
pub open spec fn unquote(v: Seq<char>) -> Seq<char> {
    if v.len() >= 2 && v[0] == '"' && v.last() == '"' {
        v.subrange(1, v.len() - 1)
    } else {
        v
    }
}

pub open spec fn bare_param_name() -> Seq<char> {
    seq!['T', 'Y', 'P', 'E']
}

/// One parameter segment `name=v1,v2` or a bare `v` (a `TYPE` value).
pub open spec fn parse_param_spec(seg: Seq<char>) -> Option<ParamView> {
    let name = match first_index_from(seg, '=', 0) {
        Some(e) => seg.take(e),
        None => bare_param_name(),
    };
    let values = match first_index_from(seg, '=', 0) {
        Some(e) => seg.skip(e + 1),
        None => seg,
    };
    if !is_token(name) {
        None
    } else {
        Some(
            ParamView {
                name: name,
                values: split_unquoted_spec(values, ',').map_values(|v: Seq<char>| unquote(v)),
            },
        )
    }
}

/// The parameters among `segs[i..]`, empty segments skipped; `None` when one
/// is malformed.
pub open spec fn parse_params_from(segs: Seq<Seq<char>>, i: int, acc: Seq<ParamView>) -> Option<
    Seq<ParamView>,
>
    decreases segs.len() - i,
{
    if i < 0 || i >= segs.len() {
        Some(acc)
    } else if segs[i].len() == 0 {
        parse_params_from(segs, i + 1, acc)
    } else {
        match parse_param_spec(segs[i]) {
            None => None,
            Some(p) => parse_params_from(segs, i + 1, acc.push(p)),
        }
    }
}

/// The group of a qualified name `group.name`.
pub open spec fn group_of(q: Seq<char>) -> Option<Seq<char>> {
    match first_index_from(q, '.', 0) {
        Some(d) => Some(q.take(d)),
        None => None,
    }
}

/// The name of a qualified name `group.name`.
pub open spec fn name_of(q: Seq<char>) -> Seq<char> {
    match first_index_from(q, '.', 0) {
        Some(d) => q.skip(d + 1),
        None => q,
    }
}

/// The property on one logical line.
pub open spec fn parse_line_spec(l: LineView) -> Result<PropertyView, VCardErrorView> {
    if !vstd::utf8::valid_utf8(l.bytes) {
        Err(VCardErrorView::InvalidUtf8 { line: l.line })
    } else {
        let text = vstd::utf8::decode_utf8(l.bytes);
        match find_unquoted_from(text, ':', 0, false) {
            None => Err(VCardErrorView::MalformedLine { line: l.line }),
            Some(colon) => {
                let segs = split_unquoted_spec(text.take(colon), ';');
                let group = group_of(segs[0]);
                let name = name_of(segs[0]);
                if !is_token(name) || (group is Some && !is_token(group->0)) {
                    Err(VCardErrorView::MalformedLine { line: l.line })
                } else {
                    match parse_params_from(segs, 1, seq![]) {
                        None => Err(VCardErrorView::MalformedLine { line: l.line }),
                        Some(params) => Ok(
                            PropertyView {
                                start: l.start,
                                end: l.end,
                                line: l.line,
                                group: group,
                                name: name,
                                params: params,
                                value: text.skip(colon + 1),
                            },
                        ),
                    }
                }
            },
        }
    }
}


/// Every logical line parsed in order, stopping at the first error.
pub open spec fn parse_lines_from(lines: Seq<LineView>, i: int, acc: Seq<PropertyView>) -> Result<
    Seq<PropertyView>,
    VCardErrorView,
>
    decreases lines.len() - i,
{
    if i < 0 || i >= lines.len() {
        Ok(acc)
    } else {
        match parse_line_spec(lines[i]) {
            Err(e) => Err(e),
            Ok(p) => parse_lines_from(lines, i + 1, acc.push(p)),
        }
    }
}

/// Parsing keeps each line's byte range as its property's.
pub proof fn lemma_parse_lines_spans(lines: Seq<LineView>, i: int, acc: Seq<PropertyView>)
    requires
        0 <= i <= lines.len(),
        acc.len() == i,
        forall|k: int|
            0 <= k < i ==> #[trigger] acc[k].start == lines[k].start && acc[k].end == lines[k].end,
    ensures
        parse_lines_from(lines, i, acc) is Ok ==> parse_lines_from(lines, i, acc)->Ok_0.len()
            == lines.len() && forall|k: int|
            0 <= k < lines.len() ==> #[trigger] parse_lines_from(lines, i, acc)->Ok_0[k].start
                == lines[k].start && parse_lines_from(lines, i, acc)->Ok_0[k].end == lines[k].end,
    decreases lines.len() - i,
{
    if i < lines.len() {
        match parse_line_spec(lines[i]) {
            Err(e) => {},
            Ok(p) => {
                lemma_parse_lines_spans(lines, i + 1, acc.push(p));
            },
        }
    }
}

pub open spec fn begin_word() -> Seq<char> {
    seq!['B', 'E', 'G', 'I', 'N']
}

pub open spec fn end_word() -> Seq<char> {
    seq!['E', 'N', 'D']
}

pub open spec fn vcard_word() -> Seq<char> {
    seq!['V', 'C', 'A', 'R', 'D']
}

pub open spec fn version_word() -> Seq<char> {
    seq!['V', 'E', 'R', 'S', 'I', 'O', 'N']
}

pub open spec fn uid_word() -> Seq<char> {
    seq!['U', 'I', 'D']
}

pub open spec fn version_three() -> Seq<char> {
    seq!['3', '.', '0']
}

/// `BEGIN:VCARD` or `END:VCARD` (per `name`): no group, name and value
/// compared ignoring ASCII case, value trimmed.
pub open spec fn is_marker(p: PropertyView, name: Seq<char>) -> bool {
    p.group is None && eq_ignore_case(p.name, name) && eq_ignore_case(trim(p.value), vcard_word())
}

/// Index of the first marker `name` at or after `i`.
pub open spec fn first_marker_from(ps: Seq<PropertyView>, name: Seq<char>, i: int) -> Option<int>
    decreases ps.len() - i,
{
    if i < 0 || i >= ps.len() {
        None
    } else if is_marker(ps[i], name) {
        Some(i)
    } else {
        first_marker_from(ps, name, i + 1)
    }
}

/// Index of the first property named `name` (ignoring case and group) at or
/// after `i`.
pub open spec fn first_named_from(ps: Seq<PropertyView>, name: Seq<char>, i: int) -> Option<int>
    decreases ps.len() - i,
{
    if i < 0 || i >= ps.len() {
        None
    } else if eq_ignore_case(ps[i].name, name) {
        Some(i)
    } else {
        first_named_from(ps, name, i + 1)
    }
}

/// The characters a version number can contain: digits and `.`.
pub open spec fn version_chars(s: Seq<char>) -> Seq<char>
    decreases s.len(),
{
    if s.len() == 0 {
        seq![]
    } else {
        let rest = version_chars(s.drop_last());
        if is_digit(s.last()) || s.last() == '.' {
            rest.push(s.last())
        } else {
            rest
        }
    }
}

/// A version string from untrusted input, reduced to at most eight digits
/// and dots so that an error can never carry card content.
pub open spec fn sanitize_version_spec(s: Seq<char>) -> Seq<char> {
    let kept = version_chars(s);
    if kept.len() > 8 {
        kept.take(8)
    } else {
        kept
    }
}

/// The structural rules of one vCard 3.0 card.
pub open spec fn check_structure_spec(ps: Seq<PropertyView>) -> Result<(), VCardErrorView> {
    if ps.len() == 0 || !is_marker(ps[0], begin_word()) {
        Err(VCardErrorView::MissingBegin)
    } else if exists|k: int| 1 <= k < ps.len() && #[trigger] is_marker(ps[k], begin_word()) {
        Err(VCardErrorView::MultipleCards)
    } else {
        match first_marker_from(ps, end_word(), 0) {
            None => Err(VCardErrorView::MissingEnd),
            Some(e) => if e + 1 < ps.len() {
                Err(VCardErrorView::TrailingContent { line: ps[e + 1].line })
            } else {
                match first_named_from(ps, version_word(), 0) {
                    None => Err(VCardErrorView::MissingVersion),
                    Some(v) => if trim(ps[v].value) == version_three() {
                        Ok(())
                    } else {
                        Err(
                            VCardErrorView::UnsupportedVersion {
                                version: sanitize_version_spec(trim(ps[v].value)),
                            },
                        )
                    },
                }
            },
        }
    }
}

// ---------------------------------------------------------------------------
// Implementation
// ---------------------------------------------------------------------------

/// Position of the first `t` outside double quotes.
pub fn find_unquoted(s: &[char], t: char) -> (r: Option<usize>)
    ensures
        match r {
            Some(i) => find_unquoted_from(s@, t, 0, false) == Some(i as int),
            None => find_unquoted_from(s@, t, 0, false) is None,
        },
{
    let mut quoted = false;
    let mut i: usize = 0;
    while i < s.len()
        invariant
            i <= s.len(),
            find_unquoted_from(s@, t, i as int, quoted) == find_unquoted_from(s@, t, 0, false),
        decreases s.len() - i,
    {
        if s[i] == '"' {
            quoted = !quoted;
        }
        if !quoted && s[i] == t {
            return Some(i);
        }
        i += 1;
    }
    None
}

/// Splits on `d` outside double quotes.
pub fn split_unquoted(s: &[char], d: char) -> (parts: Vec<Vec<char>>)
    ensures
        rows(parts@) == split_unquoted_spec(s@, d),
        parts@.len() >= 1,
{
    let mut parts: Vec<Vec<char>> = Vec::new();
    let mut start: usize = 0;
    let mut quoted = false;
    let mut i: usize = 0;
    assert(rows(parts@) =~= Seq::<Seq<char>>::empty());
    while i < s.len()
        invariant
            start <= i <= s.len(),
            split_unquoted_from(s@, d, i as int, start as int, quoted, rows(parts@))
                == split_unquoted_spec(s@, d),
        decreases s.len() - i,
    {
        if s[i] == '"' {
            quoted = !quoted;
        } else if s[i] == d && !quoted {
            let piece = slice_range(s, start, i);
            let ghost before = rows(parts@);
            parts.push(piece);
            assert(rows(parts@) =~= before.push(s@.subrange(start as int, i as int)));
            start = i + 1;
        }
        i += 1;
    }
    let piece = slice_range(s, start, s.len());
    let ghost before = rows(parts@);
    parts.push(piece);
    assert(rows(parts@) =~= before.push(s@.subrange(start as int, s.len() as int)));
    parts
}

/// Position of the first `c`.
pub fn first_index(s: &[char], c: char) -> (r: Option<usize>)
    ensures
        match r {
            Some(i) => first_index_from(s@, c, 0) == Some(i as int) && i < s.len(),
            None => first_index_from(s@, c, 0) is None,
        },
{
    let mut i: usize = 0;
    while i < s.len()
        invariant
            i <= s.len(),
            first_index_from(s@, c, i as int) == first_index_from(s@, c, 0),
        decreases s.len() - i,
    {
        if s[i] == c {
            return Some(i);
        }
        i += 1;
    }
    None
}

pub fn is_token_exec(s: &[char]) -> (r: bool)
    ensures
        r == is_token(s@),
{
    if s.len() == 0 {
        return false;
    }
    let mut i: usize = 0;
    while i < s.len()
        invariant
            i <= s.len(),
            forall|k: int| 0 <= k < i ==> is_token_char(#[trigger] s@[k]),
        decreases s.len() - i,
    {
        let c = s[i];
        if !(crate::text::is_alnum_char(c) || c == '-' || c == '_') {
            return false;
        }
        i += 1;
    }
    true
}

pub fn unquote_exec(v: &[char]) -> (r: Vec<char>)
    ensures
        r@ == unquote(v@),
{
    if v.len() >= 2 && v[0] == '"' && v[v.len() - 1] == '"' {
        slice_range(v, 1, v.len() - 1)
    } else {
        slice_range(v, 0, v.len())
    }
}

pub(crate) fn strings_of(v: &Vec<Vec<char>>) -> (r: Vec<String>)
    ensures
        crate::text::strings(r@) == rows(v@),
{
    let mut r: Vec<String> = Vec::new();
    let mut k: usize = 0;
    assert(crate::text::strings(r@) =~= rows(v@).take(0));
    while k < v.len()
        invariant
            k <= v.len(),
            crate::text::strings(r@) == rows(v@).take(k as int),
        decreases v.len() - k,
    {
        let ghost before = crate::text::strings(r@);
        r.push(string_of(&v[k]));
        assert(crate::text::strings(r@) =~= before.push(v[k as int]@));
        assert(rows(v@).take(k + 1) =~= rows(v@).take(k as int).push(v[k as int]@));
        k += 1;
    }
    assert(rows(v@).take(v.len() as int) =~= rows(v@));
    r
}

/// Parses one parameter segment.
pub fn parse_param(seg: &[char]) -> (r: Option<Param>)
    ensures
        match r {
            Some(p) => parse_param_spec(seg@) == Some(p@),
            None => parse_param_spec(seg@) is None,
        },
{
    let eq = first_index(seg, '=');
    let (name, values) = match eq {
        Some(e) => (slice_range(seg, 0, e), slice_range(seg, e + 1, seg.len())),
        None => (vec!['T', 'Y', 'P', 'E'], slice_range(seg, 0, seg.len())),
    };
    assert(seg@.subrange(0, seg.len() as int) == seg@);
    assert(eq is Some ==> seg@.subrange(0, eq->0 as int) == seg@.take(eq->0 as int));
    assert(eq is Some ==> seg@.subrange(eq->0 + 1, seg.len() as int) == seg@.skip(eq->0 + 1));
    assert(eq is None ==> name@ == bare_param_name());
    if !is_token_exec(&name) {
        return None;
    }
    let pieces = split_unquoted(&values, ',');
    let mut unquoted: Vec<Vec<char>> = Vec::new();
    let mut k: usize = 0;
    let ghost target = rows(pieces@).map_values(|v: Seq<char>| unquote(v));
    assert(rows(unquoted@) =~= target.take(0));
    while k < pieces.len()
        invariant
            k <= pieces.len(),
            target == rows(pieces@).map_values(|v: Seq<char>| unquote(v)),
            rows(unquoted@) == target.take(k as int),
        decreases pieces.len() - k,
    {
        let u = unquote_exec(&pieces[k]);
        let ghost before = rows(unquoted@);
        unquoted.push(u);
        assert(rows(unquoted@) =~= before.push(unquote(pieces[k as int]@)));
        assert(target.take(k + 1) =~= target.take(k as int).push(target[k as int]));
        k += 1;
    }
    assert(target.take(pieces.len() as int) =~= target);
    let name_s = string_of(&name);
    let values_s = strings_of(&unquoted);
    Some(Param { name: name_s, values: values_s })
}


/// Parses one logical line.
#[verifier::loop_isolation(false)]
pub fn parse_line(l: &LogicalLine) -> (r: Result<Property, VCardError>)
    ensures
        match (r, parse_line_spec(l.view())) {
            (Ok(p), Ok(v)) => p@ == v,
            (Err(e), Err(v)) => e@ == v,
            _ => false,
        },
{
    let line = l.line;
    let decoded = crate::text::decode_utf8_string(l.bytes.as_slice());
    let t = match decoded {
        Err(_) => {
            return Err(VCardError::InvalidUtf8 { line });
        },
        Ok(t) => t,
    };
    let text = crate::text::chars_of(t.as_str());
    let colon = match find_unquoted(&text, ':') {
        None => {
            return Err(VCardError::MalformedLine { line });
        },
        Some(c) => c,
    };
    proof {
        lemma_find_in_bounds(text@, ':', 0, false);
    }
    assert(colon < text.len());
    let head = slice_range(&text, 0, colon);
    let value = slice_range(&text, colon + 1, text.len());
    assert(head@ == text@.take(colon as int));
    assert(value@ == text@.skip(colon + 1));
    let segs = split_unquoted(&head, ';');
    let dot = first_index(&segs[0], '.');
    let ghost q = segs[0]@;
    let (group, name) = match dot {
        Some(d) => (Some(slice_range(&segs[0], 0, d)), slice_range(&segs[0], d + 1, segs[0].len())),
        None => (None, slice_range(&segs[0], 0, segs[0].len())),
    };
    assert(q.subrange(0, q.len() as int) == q);
    assert(dot is Some ==> q.subrange(0, dot->0 as int) == q.take(dot->0 as int));
    assert(dot is Some ==> q.subrange(dot->0 + 1, q.len() as int) == q.skip(dot->0 + 1));
    let group_ok = match &group {
        Some(g) => is_token_exec(g),
        None => true,
    };
    if !is_token_exec(&name) || !group_ok {
        return Err(VCardError::MalformedLine { line });
    }
    let mut params: Vec<Param> = Vec::new();
    let mut k: usize = 1;
    assert(param_views(params@) =~= Seq::<ParamView>::empty());
    while k < segs.len()
        invariant
            1 <= k <= segs.len(),
            parse_params_from(rows(segs@), k as int, param_views(params@)) == parse_params_from(
                rows(segs@),
                1,
                seq![],
            ),
        decreases segs.len() - k,
    {
        assert(rows(segs@)[k as int] == segs[k as int]@);
        if segs[k].len() > 0 {
            match parse_param(&segs[k]) {
                None => {
                    assert(parse_params_from(rows(segs@), k as int, param_views(params@)) is None);

                    return Err(VCardError::MalformedLine { line });
                },
                Some(p) => {
                    let ghost before = param_views(params@);
                    params.push(p);
                    assert(param_views(params@) =~= before.push(p@));
                },
            }
        }
        k += 1;
    }
    let group_s = match group {
        Some(g) => Some(string_of(&g)),
        None => None,
    };
    Ok(
        Property {
            start: l.start,
            end: l.end,
            line: l.line,
            group: group_s,
            name: string_of(&name),
            params,
            value: string_of(&value),
        },
    )
}

pub(crate) proof fn lemma_find_in_bounds(s: Seq<char>, t: char, i: int, quoted: bool)
    ensures
        find_unquoted_from(s, t, i, quoted) matches Some(k) ==> i <= k < s.len(),
    decreases s.len() - i,
{
    if 0 <= i < s.len() {
        let q = if s[i] == '"' { !quoted } else { quoted };
        lemma_find_in_bounds(s, t, i + 1, q);
    }
}

/// Parses every logical line, stopping at the first error.
pub fn parse_lines(lines: &Vec<LogicalLine>) -> (r: Result<Vec<Property>, VCardError>)
    ensures
        match (r, parse_lines_from(super::unfold::line_views(lines@), 0, seq![])) {
            (Ok(ps), Ok(v)) => property_views(ps@) == v,
            (Err(e), Err(v)) => e@ == v,
            _ => false,
        },
{
    let ghost views = super::unfold::line_views(lines@);
    let mut out: Vec<Property> = Vec::new();
    let mut i: usize = 0;
    assert(property_views(out@) =~= Seq::<PropertyView>::empty());
    while i < lines.len()
        invariant
            i <= lines.len(),
            views == super::unfold::line_views(lines@),
            parse_lines_from(views, i as int, property_views(out@)) == parse_lines_from(
                views,
                0,
                seq![],
            ),
        decreases lines.len() - i,
    {
        match parse_line(&lines[i]) {
            Err(e) => {
                return Err(e);
            },
            Ok(p) => {
                let ghost before = property_views(out@);
                out.push(p);
                assert(property_views(out@) =~= before.push(p@));
            },
        }
        i += 1;
    }
    Ok(out)
}

} // verus!

verus! {

/// `BEGIN:VCARD` / `END:VCARD` test on one property.
pub fn is_marker_exec(p: &Property, name: &[char]) -> (r: bool)
    ensures
        r == is_marker(p@, name@),
{
    if p.group.is_some() {
        return false;
    }
    let pname = crate::text::chars_of(p.name.as_str());
    if !crate::text::eq_ignore_case_vec(&pname, name) {
        return false;
    }
    let value = crate::text::chars_of(p.value.as_str());
    let trimmed = crate::text::trim_vec(&value);
    let vcard = vec!['V', 'C', 'A', 'R', 'D'];
    crate::text::eq_ignore_case_vec(&trimmed, &vcard)
}

/// Index of the first marker `name`.
pub fn first_marker(ps: &Vec<Property>, name: &[char]) -> (r: Option<usize>)
    ensures
        match r {
            Some(i) => first_marker_from(property_views(ps@), name@, 0) == Some(i as int) && i < ps.len(),
            None => first_marker_from(property_views(ps@), name@, 0) is None,
        },
{
    let mut i: usize = 0;
    while i < ps.len()
        invariant
            i <= ps.len(),
            first_marker_from(property_views(ps@), name@, i as int) == first_marker_from(
                property_views(ps@),
                name@,
                0,
            ),
        decreases ps.len() - i,
    {
        if is_marker_exec(&ps[i], name) {
            return Some(i);
        }
        i += 1;
    }
    None
}

/// Index of the first property named `name`, ignoring case and group.
pub fn first_named(ps: &Vec<Property>, name: &[char]) -> (r: Option<usize>)
    ensures
        match r {
            Some(i) => first_named_from(property_views(ps@), name@, 0) == Some(i as int) && i < ps.len(),
            None => first_named_from(property_views(ps@), name@, 0) is None,
        },
{
    let mut i: usize = 0;
    while i < ps.len()
        invariant
            i <= ps.len(),
            first_named_from(property_views(ps@), name@, i as int) == first_named_from(
                property_views(ps@),
                name@,
                0,
            ),
        decreases ps.len() - i,
    {
        let pname = crate::text::chars_of(ps[i].name.as_str());
        if crate::text::eq_ignore_case_vec(&pname, name) {
            return Some(i);
        }
        i += 1;
    }
    None
}

/// Keeps at most eight digits and dots of an untrusted version string.
pub fn sanitize_version(s: &[char]) -> (r: Vec<char>)
    ensures
        r@ == sanitize_version_spec(s@),
{
    let mut out: Vec<char> = Vec::new();
    let mut i: usize = 0;
    assert(s@.take(0) =~= Seq::<char>::empty());
    while i < s.len()
        invariant
            i <= s.len(),
            out@ == version_chars(s@.take(i as int)),
        decreases s.len() - i,
    {
        let c = s[i];
        assert(s@.take(i + 1).drop_last() == s@.take(i as int));
        if crate::text::is_digit_char(c) || c == '.' {
            out.push(c);
        }
        i += 1;
    }
    assert(s@.take(s.len() as int) == s@);
    if out.len() > 8 {
        crate::text::slice_range(&out, 0, 8)
    } else {
        out
    }
}

/// Checks the structural rules of one card.
#[verifier::loop_isolation(false)]
pub fn check_structure(ps: &Vec<Property>) -> (r: Result<(), VCardError>)
    ensures
        match (r, check_structure_spec(property_views(ps@))) {
            (Ok(_), Ok(_)) => true,
            (Err(e), Err(v)) => e@ == v,
            _ => false,
        },
{
    let ghost views = property_views(ps@);
    let begin = vec!['B', 'E', 'G', 'I', 'N'];
    if ps.len() == 0 || !is_marker_exec(&ps[0], &begin) {
        return Err(VCardError::MissingBegin);
    }
    let mut k: usize = 1;
    while k < ps.len()
        invariant
            1 <= k <= ps.len(),
            views == property_views(ps@),
            begin@ == begin_word(),
            forall|j: int| 1 <= j < k ==> !is_marker(#[trigger] views[j], begin_word()),
        decreases ps.len() - k,
    {
        if is_marker_exec(&ps[k], &begin) {
            assert(is_marker(views[k as int], begin_word()));
            return Err(VCardError::MultipleCards);
        }
        k += 1;
    }
    let end_name = vec!['E', 'N', 'D'];
    let end = match first_marker(ps, &end_name) {
        None => {
            return Err(VCardError::MissingEnd);
        },
        Some(e) => e,
    };
    if end + 1 < ps.len() {
        return Err(VCardError::TrailingContent { line: ps[end + 1].line });
    }
    let version_name = vec!['V', 'E', 'R', 'S', 'I', 'O', 'N'];
    let v = match first_named(ps, &version_name) {
        None => {
            return Err(VCardError::MissingVersion);
        },
        Some(v) => v,
    };
    let value = crate::text::chars_of(ps[v].value.as_str());
    let trimmed = crate::text::trim_vec(&value);
    let three = vec!['3', '.', '0'];
    if crate::text::chars_eq(&trimmed, &three) {
        Ok(())
    } else {
        let kept = sanitize_version(&trimmed);
        Err(VCardError::UnsupportedVersion { version: string_of(&kept) })
    }
}

} // verus!

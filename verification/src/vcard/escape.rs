//! vCard 3.0 TEXT escapes (RFC 2426 section 5) and structured values.

use vstd::prelude::*;

verus! {

/// The unescaped form of a TEXT value: `\n` and `\N` become a newline, any
/// other escaped character stands for itself, and a trailing lone backslash
/// is kept.
pub open spec fn unescape_spec(s: Seq<char>) -> Seq<char>
    decreases s.len(),
{
    if s.len() == 0 {
        seq![]
    } else if s[0] != '\\' {
        seq![s[0]] + unescape_spec(s.drop_first())
    } else if s.len() == 1 {
        seq!['\\']
    } else {
        seq![if s[1] == 'n' || s[1] == 'N' { '\n' } else { s[1] }] + unescape_spec(s.skip(2))
    }
}

/// Components of a structured value split on `;` that is not escaped by a
/// backslash, scanning from position `i` with the current component starting
/// at `start`.
pub open spec fn split_components_from(
    s: Seq<char>,
    i: int,
    start: int,
    escaped: bool,
    parts: Seq<Seq<char>>,
) -> Seq<Seq<char>>
    decreases s.len() - i,
{
    if i >= s.len() {
        parts.push(s.subrange(start, s.len() as int))
    } else if escaped {
        split_components_from(s, i + 1, start, false, parts)
    } else if s[i] == '\\' {
        split_components_from(s, i + 1, start, true, parts)
    } else if s[i] == ';' {
        split_components_from(s, i + 1, i + 1, false, parts.push(s.subrange(start, i)))
    } else {
        split_components_from(s, i + 1, start, false, parts)
    }
}

/// The components of a structured value (`N`, `ORG`, `ADR`); they stay
/// escaped.
pub open spec fn split_components_spec(s: Seq<char>) -> Seq<Seq<char>> {
    split_components_from(s, 0, 0, false, seq![])
}

proof fn lemma_split_components_from_len(
    s: Seq<char>,
    i: int,
    start: int,
    escaped: bool,
    parts: Seq<Seq<char>>,
)
    ensures
        split_components_from(s, i, start, escaped, parts).len() > parts.len(),
    decreases s.len() - i,
{
    if i < s.len() {
        if escaped || s[i] == '\\' {
            lemma_split_components_from_len(s, i + 1, start, !escaped && s[i] == '\\', parts);
        } else if s[i] == ';' {
            lemma_split_components_from_len(s, i + 1, i + 1, false, parts.push(s.subrange(start, i)));
        } else {
            lemma_split_components_from_len(s, i + 1, start, false, parts);
        }
    }
}

/// A structured value always has a first component.
pub proof fn lemma_split_components_nonempty(s: Seq<char>)
    ensures
        split_components_spec(s).len() >= 1,
{
    lemma_split_components_from_len(s, 0, 0, false, seq![]);
}

/// Unescapes a TEXT value given as characters.
pub fn unescape_chars(s: &[char]) -> (out: Vec<char>)
    ensures
        out@ == unescape_spec(s@),
{
    let mut out: Vec<char> = Vec::new();
    let mut i: usize = 0;
    assert(s@.skip(0) == s@);
    assert(out@ + unescape_spec(s@) =~= unescape_spec(s@));
    while i < s.len()
        invariant
            i <= s.len(),
            out@ + unescape_spec(s@.skip(i as int)) == unescape_spec(s@),
        decreases s.len() - i,
    {
        let ghost rest = s@.skip(i as int);
        let c = s[i];
        if c != '\\' {
            assert(rest.drop_first() == s@.skip(i + 1));
            out.push(c);
            assert(unescape_spec(rest) == seq![c] + unescape_spec(rest.drop_first()));
            i += 1;
        } else if i + 1 == s.len() {
            out.push('\\');
            assert(s@.skip(i + 1).len() == 0);
            assert(unescape_spec(s@.skip(i + 1)) == Seq::<char>::empty());
            i += 1;
        } else {
            let next = s[i + 1];
            assert(rest.skip(2) == s@.skip(i + 2));
            if next == 'n' || next == 'N' {
                out.push('\n');
            } else {
                out.push(next);
            }
            i += 2;
        }
    }
    assert(s@.skip(s.len() as int).len() == 0);
    assert(unescape_spec(s@.skip(s.len() as int)) == Seq::<char>::empty());
    assert(out@ + Seq::<char>::empty() == out@);
    out
}

/// Unescapes a TEXT value.
pub fn unescape(value: &str) -> (out: String)
    ensures
        out@ == unescape_spec(value@),
{
    let chars = crate::text::chars_of(value);
    let out = unescape_chars(&chars);
    crate::text::string_of(&out)
}

/// Splits a structured value given as characters.
pub fn split_components_chars(s: &[char]) -> (parts: Vec<Vec<char>>)
    ensures
        crate::text::rows(parts@) == split_components_spec(s@),
{
    let mut parts: Vec<Vec<char>> = Vec::new();
    let mut start: usize = 0;
    let mut escaped = false;
    let mut i: usize = 0;
    assert(crate::text::rows(parts@) =~= Seq::<Seq<char>>::empty());
    while i < s.len()
        invariant
            start <= i <= s.len(),
            split_components_from(s@, i as int, start as int, escaped, crate::text::rows(parts@))
                == split_components_spec(s@),
        decreases s.len() - i,
    {
        if escaped {
            escaped = false;
        } else if s[i] == '\\' {
            escaped = true;
        } else if s[i] == ';' {
            let part = crate::text::slice_range(s, start, i);
            let ghost before = crate::text::rows(parts@);
            parts.push(part);
            assert(crate::text::rows(parts@) =~= before.push(s@.subrange(start as int, i as int)));
            start = i + 1;
        }
        i += 1;
    }
    let last = crate::text::slice_range(s, start, s.len());
    let ghost before = crate::text::rows(parts@);
    parts.push(last);
    assert(crate::text::rows(parts@) =~= before.push(s@.subrange(start as int, s.len() as int)));
    parts
}

/// Splits a structured value (`N`, `ORG`, `ADR`) on unescaped `;`. The
/// components stay escaped.
pub fn split_components(value: &str) -> (parts: Vec<String>)
    ensures
        crate::text::strings(parts@) == split_components_spec(value@),
{
    let chars = crate::text::chars_of(value);
    let pieces = split_components_chars(&chars);
    let mut parts: Vec<String> = Vec::new();
    let mut k: usize = 0;
    assert(crate::text::strings(parts@) =~= crate::text::rows(pieces@).take(0));
    while k < pieces.len()
        invariant
            k <= pieces.len(),
            crate::text::strings(parts@) == crate::text::rows(pieces@).take(k as int),
        decreases pieces.len() - k,
    {
        let ghost before = crate::text::strings(parts@);
        parts.push(crate::text::string_of(&pieces[k]));
        assert(crate::text::strings(parts@) =~= before.push(pieces[k as int]@));
        assert(crate::text::rows(pieces@).take(k + 1) =~= crate::text::rows(pieces@).take(
            k as int,
        ).push(pieces[k as int]@));
        k += 1;
    }
    assert(crate::text::rows(pieces@).take(pieces.len() as int) =~= crate::text::rows(pieces@));
    parts
}

} // verus!

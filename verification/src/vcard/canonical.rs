//! The comparison-only canonical form of a card and its SHA-256 hash.
//!
//! Rules (version `CANONICAL_VERSION`):
//! - drop `REV`, `PRODID` (and `PHOTO` when `exclude_photo`);
//! - upper-case property and parameter names, merge repeated parameters;
//! - `TYPE`/`ENCODING`/`VALUE`/`CHARSET` values upper-cased, sorted and
//!   de-duplicated; `ENCODING=BASE64` is `ENCODING=B`;
//! - in values, `\N` becomes `\n`; all other characters are kept;
//! - Apple `itemN.` groups are relabelled `G1..` by their sorted content;
//! - lines sorted, `\n`-terminated, after a `CANONICAL:<version>` line.

use vstd::prelude::*;
use crate::text::{decimal, eq_ignore_case, join, join_exec, lower_seq, rows, upper_seq};
use super::order::{
    insert_unique, lists, sort_lists, sort_spec, sort_unique, unique_pos_from,
};
use super::{ParamView, Property, PropertyView};

verus! {

// ---------------------------------------------------------------------------
// Values
// ---------------------------------------------------------------------------

/// A value with the one equivalent escape spelling normalised: `\N` becomes
/// `\n`; every other character, other escapes included, is kept.
pub open spec fn canonical_value_spec(v: Seq<char>) -> Seq<char>
    decreases v.len(),
{
    if v.len() == 0 {
        seq![]
    } else if v[0] != '\\' {
        seq![v[0]] + canonical_value_spec(v.drop_first())
    } else if v.len() == 1 {
        seq!['\\']
    } else if v[1] == 'N' {
        seq!['\\', 'n'] + canonical_value_spec(v.skip(2))
    } else {
        seq!['\\', v[1]] + canonical_value_spec(v.skip(2))
    }
}

pub fn canonical_value(v: &[char]) -> (r: Vec<char>)
    ensures
        r@ == canonical_value_spec(v@),
{
    let mut out: Vec<char> = Vec::new();
    let mut i: usize = 0;
    assert(v@.skip(0) == v@);
    while i < v.len()
        invariant
            i <= v.len(),
            out@ + canonical_value_spec(v@.skip(i as int)) == canonical_value_spec(v@),
        decreases v.len() - i,
    {
        let ghost rest = v@.skip(i as int);
        let ghost before = out@;
        assert(rest[0] == v@[i as int]);
        if v[i] != '\\' {
            assert(rest.drop_first() == v@.skip(i + 1));
            out.push(v[i]);
            assert(before + canonical_value_spec(rest) == out@ + canonical_value_spec(
                v@.skip(i + 1),
            ));
            i += 1;
        } else if i + 1 == v.len() {
            assert(rest.len() == 1);
            out.push('\\');
            assert(v@.skip(i + 1).len() == 0);
            assert(out@ + canonical_value_spec(v@.skip(i + 1)) == out@);
            i += 1;
        } else {
            assert(rest[1] == v@[i + 1]);
            assert(rest.skip(2) == v@.skip(i + 2));
            out.push('\\');
            if v[i + 1] == 'N' {
                out.push('n');
            } else {
                out.push(v[i + 1]);
            }
            assert(before + canonical_value_spec(rest) == out@ + canonical_value_spec(
                v@.skip(i + 2),
            ));
            i += 2;
        }
    }
    assert(v@.skip(v.len() as int).len() == 0);
    assert(out@ + canonical_value_spec(v@.skip(i as int)) == out@);
    out
}

// ---------------------------------------------------------------------------
// Keyed lists (`BTreeMap<String, Vec<String>>`)
// ---------------------------------------------------------------------------

/// Keys kept sorted and unique, each with a list of items: `items` are
/// appended to `key`'s list, or `key` is inserted in order with them.
pub open spec fn merge_keyed(
    keys: Seq<Seq<char>>,
    vals: Seq<Seq<Seq<char>>>,
    key: Seq<char>,
    items: Seq<Seq<char>>,
) -> (Seq<Seq<char>>, Seq<Seq<Seq<char>>>) {
    let p = unique_pos_from(keys, key, 0);
    if p < keys.len() && keys[p] == key {
        (keys, vals.update(p, vals[p] + items))
    } else {
        (keys.insert(p, key), vals.insert(p, items))
    }
}

proof fn lemma_unique_pos_bounds(l: Seq<Seq<char>>, x: Seq<char>, i: int)
    requires
        0 <= i <= l.len(),
    ensures
        i <= unique_pos_from(l, x, i) <= l.len(),
    decreases l.len() - i,
{
    if i < l.len() {
        lemma_unique_pos_bounds(l, x, i + 1);
    }
}

fn merge_keyed_exec(
    keys: &mut Vec<Vec<char>>,
    vals: &mut Vec<Vec<Vec<char>>>,
    key: Vec<char>,
    items: Vec<Vec<char>>,
)
    requires
        old(keys).len() == old(vals).len(),
    ensures
        final(keys).len() == final(vals).len(),
        (rows(final(keys)@), lists(final(vals)@)) == merge_keyed(
            rows(old(keys)@),
            lists(old(vals)@),
            key@,
            rows(items@),
        ),
{
    let ghost k0 = rows(keys@);
    let ghost v0 = lists(vals@);
    proof {
        lemma_unique_pos_bounds(k0, key@, 0);
    }
    let mut i: usize = 0;
    while i < keys.len() && !crate::text::chars_eq(&keys[i], &key)
        && !super::order::str_lt_exec(&key, &keys[i])
        invariant
            i <= keys.len(),
            k0 == rows(keys@),
            unique_pos_from(k0, key@, i as int) == unique_pos_from(k0, key@, 0),
        decreases keys.len() - i,
    {
        i += 1;
    }
    if i < keys.len() && crate::text::chars_eq(&keys[i], &key) {
        let mut cur = vals.remove(i);
        let ghost c0 = rows(cur@);
        let mut j: usize = 0;
        while j < items.len()
            invariant
                j <= items.len(),
                rows(cur@) == c0 + rows(items@).take(j as int),
            decreases items.len() - j,
        {
            let item = crate::text::slice_range(&items[j], 0, items[j].len());
            assert(items@[j as int]@.subrange(0, items@[j as int]@.len() as int) == items@[j as int]@);
            let ghost before = rows(cur@);
            cur.push(item);
            assert(rows(cur@) =~= before.push(items@[j as int]@));
            assert(rows(items@).take(j + 1) =~= rows(items@).take(j as int).push(
                items@[j as int]@,
            ));
            j += 1;
        }
        assert(rows(items@).take(items.len() as int) == rows(items@));
        let ghost cv = rows(cur@);
        vals.insert(i, cur);
        assert(lists(vals@) =~= v0.update(i as int, v0[i as int] + rows(items@)));
    } else {
        let ghost kv = key@;
        let ghost iv = rows(items@);
        keys.insert(i, key);
        vals.insert(i, items);
        assert(rows(keys@) =~= k0.insert(i as int, kv));
        assert(lists(vals@) =~= v0.insert(i as int, iv));
    }
}

// ---------------------------------------------------------------------------
// Parameters
// ---------------------------------------------------------------------------

pub open spec fn type_word() -> Seq<char> {
    seq!['T', 'Y', 'P', 'E']
}

pub open spec fn encoding_word() -> Seq<char> {
    seq!['E', 'N', 'C', 'O', 'D', 'I', 'N', 'G']
}

pub open spec fn value_word() -> Seq<char> {
    seq!['V', 'A', 'L', 'U', 'E']
}

pub open spec fn charset_word() -> Seq<char> {
    seq!['C', 'H', 'A', 'R', 'S', 'E', 'T']
}

pub open spec fn base64_word() -> Seq<char> {
    seq!['B', 'A', 'S', 'E', '6', '4']
}

/// Parameters whose values are case-insensitive, compared as sorted sets.
pub open spec fn is_ci_param(name: Seq<char>) -> bool {
    name == type_word() || name == encoding_word() || name == value_word() || name
        == charset_word()
}

/// A parameter value under the upper-cased parameter name `name`.
pub open spec fn canonical_param_value(name: Seq<char>, v: Seq<char>) -> Seq<char> {
    if !is_ci_param(name) {
        v
    } else if name == encoding_word() && upper_seq(v) == base64_word() {
        seq!['B']
    } else {
        upper_seq(v)
    }
}

pub open spec fn canonical_param_values(name: Seq<char>, vals: Seq<Seq<char>>) -> Seq<Seq<char>> {
    vals.map_values(|v: Seq<char>| canonical_param_value(name, v))
}

/// Parameters `ps[i..]` merged by upper-cased name into `(keys, vals)`.
pub open spec fn merge_params_from(
    ps: Seq<ParamView>,
    i: int,
    keys: Seq<Seq<char>>,
    vals: Seq<Seq<Seq<char>>>,
) -> (Seq<Seq<char>>, Seq<Seq<Seq<char>>>)
    decreases ps.len() - i,
{
    if i < 0 || i >= ps.len() {
        (keys, vals)
    } else {
        let name = upper_seq(ps[i].name);
        let m = merge_keyed(keys, vals, name, canonical_param_values(name, ps[i].values));
        merge_params_from(ps, i + 1, m.0, m.1)
    }
}

/// `;NAME=v1,v2` for one merged parameter.
pub open spec fn param_text(name: Seq<char>, vals: Seq<Seq<char>>) -> Seq<char> {
    seq![';'] + name + seq!['='] + join(
        if is_ci_param(name) {
            sort_unique(vals)
        } else {
            vals
        },
        ',',
    )
}

/// The first `n` merged parameters as text.
pub open spec fn params_text(keys: Seq<Seq<char>>, vals: Seq<Seq<Seq<char>>>, n: int) -> Seq<char>
    decreases n,
{
    if n <= 0 {
        seq![]
    } else {
        params_text(keys, vals, n - 1) + param_text(keys[n - 1], vals[n - 1])
    }
}

/// `NAME;PARAM=v1,v2;...:value`, without the group prefix.
pub open spec fn canonical_line_spec(p: PropertyView) -> Seq<char> {
    let m = merge_params_from(p.params, 0, seq![], seq![]);
    upper_seq(p.name) + params_text(m.0, m.1, m.0.len() as int) + seq![':']
        + canonical_value_spec(p.value)
}

fn is_ci_param_exec(name: &[char]) -> (r: bool)
    ensures
        r == is_ci_param(name@),
{
    let t = vec!['T', 'Y', 'P', 'E'];
    let e = vec!['E', 'N', 'C', 'O', 'D', 'I', 'N', 'G'];
    let v = vec!['V', 'A', 'L', 'U', 'E'];
    let c = vec!['C', 'H', 'A', 'R', 'S', 'E', 'T'];
    crate::text::chars_eq(name, &t) || crate::text::chars_eq(name, &e)
        || crate::text::chars_eq(name, &v) || crate::text::chars_eq(name, &c)
}

/// The canonical values of one parameter under the upper-cased name `name`.
fn canonical_param_values_exec(name: &[char], values: &[String]) -> (r: Vec<Vec<char>>)
    ensures
        rows(r@) == canonical_param_values(name@, crate::text::strings(values@)),
{
    let ci = is_ci_param_exec(name);
    let enc = vec!['E', 'N', 'C', 'O', 'D', 'I', 'N', 'G'];
    let b64 = vec!['B', 'A', 'S', 'E', '6', '4'];
    let is_encoding = crate::text::chars_eq(name, &enc);
    let ghost sv = crate::text::strings(values@);
    let mut out: Vec<Vec<char>> = Vec::new();
    let mut i: usize = 0;
    while i < values.len()
        invariant
            i <= values.len(),
            sv == crate::text::strings(values@),
            ci == is_ci_param(name@),
            is_encoding == (name@ == encoding_word()),
            b64@ == base64_word(),
            rows(out@) == canonical_param_values(name@, sv.take(i as int)),
        decreases values.len() - i,
    {
        let v = crate::text::chars_of(values[i].as_str());
        let c = if !ci {
            v
        } else {
            let u = crate::text::upper_vec(&v);
            if is_encoding && crate::text::chars_eq(&u, &b64) {
                vec!['B']
            } else {
                u
            }
        };
        assert(c@ == canonical_param_value(name@, sv[i as int]));
        let ghost before = rows(out@);
        out.push(c);
        assert(rows(out@) =~= before.push(c@));
        assert(canonical_param_values(name@, sv.take(i + 1)) =~= canonical_param_values(
            name@,
            sv.take(i as int),
        ).push(canonical_param_value(name@, sv[i as int])));
        i += 1;
    }
    assert(sv.take(values.len() as int) == sv);
    out
}

fn param_text_exec(name: &Vec<char>, vals: &Vec<Vec<char>>) -> (r: Vec<char>)
    ensures
        r@ == param_text(name@, rows(vals@)),
{
    let mut out: Vec<char> = vec![';'];
    crate::text::append_chars(&mut out, name);
    out.push('=');
    let joined = if is_ci_param_exec(name) {
        let s = super::order::sort_unique_exec(vals);
        join_exec(&s, ',')
    } else {
        join_exec(vals, ',')
    };
    crate::text::append_chars(&mut out, &joined);
    out
}

/// `NAME;PARAM=v1,v2;...:value` for one property, without its group.
pub fn canonical_line(property: &Property) -> (r: Vec<char>)
    ensures
        r@ == canonical_line_spec(property@),
{
    let ghost pv = property@.params;
    let mut keys: Vec<Vec<char>> = Vec::new();
    let mut vals: Vec<Vec<Vec<char>>> = Vec::new();
    let mut i: usize = 0;
    assert(rows(keys@) =~= Seq::<Seq<char>>::empty());
    assert(lists(vals@) =~= Seq::<Seq<Seq<char>>>::empty());
    while i < property.params.len()
        invariant
            i <= property.params.len(),
            pv == property@.params,
            pv.len() == property.params.len(),
            keys.len() == vals.len(),
            merge_params_from(pv, i as int, rows(keys@), lists(vals@)) == merge_params_from(
                pv,
                0,
                seq![],
                seq![],
            ),
        decreases property.params.len() - i,
    {
        let param = &property.params[i];
        assert(pv[i as int] == param@);
        let raw_name = crate::text::chars_of(param.name.as_str());
        let name = crate::text::upper_vec(&raw_name);
        let values = canonical_param_values_exec(&name, param.values.as_slice());
        merge_keyed_exec(&mut keys, &mut vals, name, values);
        i += 1;
    }
    let ghost m = merge_params_from(pv, 0, seq![], seq![]);
    assert(rows(keys@) == m.0 && lists(vals@) == m.1);
    let raw_name = crate::text::chars_of(property.name.as_str());
    let mut out = crate::text::upper_vec(&raw_name);
    let ghost head = out@;
    let mut k: usize = 0;
    while k < keys.len()
        invariant
            k <= keys.len(),
            keys.len() == vals.len(),
            rows(keys@) == m.0,
            lists(vals@) == m.1,
            out@ == head + params_text(m.0, m.1, k as int),
        decreases keys.len() - k,
    {
        let t = param_text_exec(&keys[k], &vals[k]);
        assert(keys@[k as int]@ == m.0[k as int]);
        assert(rows(vals@[k as int]@) == m.1[k as int]);
        crate::text::append_chars(&mut out, &t);
        k += 1;
    }
    out.push(':');
    let value = crate::text::chars_of(property.value.as_str());
    let cv = canonical_value(&value);
    crate::text::append_chars(&mut out, &cv);
    out
}


// ---------------------------------------------------------------------------
// The whole card
// ---------------------------------------------------------------------------

/// Version of the canonical form. Bump it whenever `canonical_form` changes
/// so stored hashes can be recognised as stale rather than as edits.
pub const CANONICAL_VERSION: u8 = 1;

/// What the hash leaves out besides the volatile properties.
#[derive(Debug, Clone, Copy, PartialEq, Eq, Structural)]
pub struct HashOptions {
    /// Leave `PHOTO` out, for cards whose photo was stripped as oversize.
    pub exclude_photo: bool,
}

impl Default for HashOptions {
    fn default() -> (r: Self)
        ensures
            !r.exclude_photo,
    {
        HashOptions { exclude_photo: false }
    }
}

pub open spec fn rev_word() -> Seq<char> {
    seq!['R', 'E', 'V']
}

pub open spec fn prodid_word() -> Seq<char> {
    seq!['P', 'R', 'O', 'D', 'I', 'D']
}

pub open spec fn photo_word() -> Seq<char> {
    seq!['P', 'H', 'O', 'T', 'O']
}

/// `REV` and `PRODID` change on every server write without a meaningful
/// edit; `PHOTO` is left out on request.
pub open spec fn is_excluded(p: PropertyView, exclude_photo: bool) -> bool {
    eq_ignore_case(p.name, rev_word()) || eq_ignore_case(p.name, prodid_word()) || (exclude_photo
        && eq_ignore_case(p.name, photo_word()))
}

/// Properties `ps[i..]` sorted into ungrouped lines and lines by group
/// (group names lower-cased, groups kept in name order).
pub open spec fn collect_from(
    ps: Seq<PropertyView>,
    exclude_photo: bool,
    i: int,
    lines: Seq<Seq<char>>,
    keys: Seq<Seq<char>>,
    members: Seq<Seq<Seq<char>>>,
) -> (Seq<Seq<char>>, Seq<Seq<char>>, Seq<Seq<Seq<char>>>)
    decreases ps.len() - i,
{
    if i < 0 || i >= ps.len() {
        (lines, keys, members)
    } else if is_excluded(ps[i], exclude_photo) {
        collect_from(ps, exclude_photo, i + 1, lines, keys, members)
    } else {
        let line = canonical_line_spec(ps[i]);
        match ps[i].group {
            Some(g) => {
                let m = merge_keyed(keys, members, lower_seq(g), seq![line]);
                collect_from(ps, exclude_photo, i + 1, lines, m.0, m.1)
            },
            None => collect_from(ps, exclude_photo, i + 1, lines.push(line), keys, members),
        }
    }
}

/// `G<n>.<line>`.
pub open spec fn label(n: nat, line: Seq<char>) -> Seq<char> {
    seq!['G'] + decimal(n) + seq!['.'] + line
}

/// The lines of each group, labelled by the group's 1-based position.
pub open spec fn labeled(groups: Seq<Seq<Seq<char>>>) -> Seq<Seq<char>>
    decreases groups.len(),
{
    if groups.len() == 0 {
        seq![]
    } else {
        labeled(groups.drop_last()) + groups.last().map_values(
            |l: Seq<char>| label(groups.len(), l),
        )
    }
}

/// Each line followed by `\n`.
pub open spec fn concat_lines(l: Seq<Seq<char>>) -> Seq<char>
    decreases l.len(),
{
    if l.len() == 0 {
        seq![]
    } else {
        concat_lines(l.drop_last()) + l.last() + seq!['\n']
    }
}

/// `CANONICAL:<version>\n`.
pub open spec fn header() -> Seq<char> {
    seq!['C', 'A', 'N', 'O', 'N', 'I', 'C', 'A', 'L', ':'] + decimal(CANONICAL_VERSION as nat)
        + seq!['\n']
}

/// The canonical form of a card with properties `ps`.
pub open spec fn canonical_form_spec(ps: Seq<PropertyView>, exclude_photo: bool) -> Seq<char> {
    let c = collect_from(ps, exclude_photo, 0, seq![], seq![], seq![]);
    let grouped = sort_lists(c.2.map_values(|m: Seq<Seq<char>>| sort_spec(m)));
    header() + concat_lines(sort_spec(c.0 + labeled(grouped)))
}

fn is_excluded_exec(p: &Property, exclude_photo: bool) -> (r: bool)
    ensures
        r == is_excluded(p@, exclude_photo),
{
    let rev = vec!['R', 'E', 'V'];
    let prodid = vec!['P', 'R', 'O', 'D', 'I', 'D'];
    let photo = vec!['P', 'H', 'O', 'T', 'O'];
    p.is_chars(&rev) || p.is_chars(&prodid) || (exclude_photo && p.is_chars(&photo))
}

/// Each list of `members` sorted.
fn sort_each(members: Vec<Vec<Vec<char>>>) -> (r: Vec<Vec<Vec<char>>>)
    ensures
        lists(r@) == lists(members@).map_values(|m: Seq<Seq<char>>| sort_spec(m)),
{
    let ghost lm = lists(members@);
    let mut out: Vec<Vec<Vec<char>>> = Vec::new();
    let mut rest = members;
    let ghost mut i: int = 0;
    assert(lists(rest@) =~= lm.skip(0));
    while rest.len() > 0
        invariant
            0 <= i <= lm.len(),
            lists(rest@) == lm.skip(i),
            lists(out@) == lm.take(i).map_values(|m: Seq<Seq<char>>| sort_spec(m)),
        decreases rest.len(),
    {
        let ghost before = lists(rest@);
        let ghost old_rest = rest@;
        assert(before.len() == lm.len() - i);
        assert(before[0] == lm[i]);
        let m = rest.remove(0);
        assert(m == old_rest[0]);
        assert(rows(m@) == lm[i]);
        assert(lists(rest@) =~= before.drop_first());
        assert(lists(rest@) =~= lm.skip(i + 1));
        let sorted = super::order::sort_exec(m);
        let ghost o = lists(out@);
        out.push(sorted);
        assert(lists(out@) =~= o.push(sort_spec(lm[i])));
        assert(lm.take(i + 1).map_values(|m: Seq<Seq<char>>| sort_spec(m)) =~= lm.take(i).map_values(
            |m: Seq<Seq<char>>| sort_spec(m),
        ).push(sort_spec(lm[i])));
        proof {
            i = i + 1;
        }
    }
    assert(lm.take(i) == lm);
    out
}

/// `G<n>.<line>` for one line.
fn label_exec(n: usize, line: &Vec<char>) -> (r: Vec<char>)
    ensures
        r@ == label(n as nat, line@),
{
    let mut out: Vec<char> = vec!['G'];
    let digits = crate::text::decimal_chars(n as u64);
    crate::text::append_chars(&mut out, &digits);
    out.push('.');
    crate::text::append_chars(&mut out, line);
    out
}

/// `lines` followed by the labelled lines of `groups`.
fn append_labeled(lines: &mut Vec<Vec<char>>, groups: &Vec<Vec<Vec<char>>>)
    ensures
        rows(final(lines)@) == rows(old(lines)@) + labeled(lists(groups@)),
{
    let ghost lg = lists(groups@);
    let ghost l0 = rows(lines@);
    let mut k: usize = 0;
    assert(lg.take(0) =~= Seq::<Seq<Seq<char>>>::empty());
    assert(l0 + labeled(lg.take(0)) =~= l0);
    while k < groups.len()
        invariant
            k <= groups.len(),
            lg == lists(groups@),
            rows(lines@) == l0 + labeled(lg.take(k as int)),
        decreases groups.len() - k,
    {
        let members = &groups[k];
        let ghost lm = rows(members@);
        assert(lm == lg[k as int]);
        let ghost base = rows(lines@);
        let mut j: usize = 0;
        while j < members.len()
            invariant
                j <= members.len(),
                k < groups.len(),
                lm == rows(members@),
                rows(lines@) == base + lm.take(j as int).map_values(
                    |l: Seq<char>| label((k + 1) as nat, l),
                ),
            decreases members.len() - j,
        {
            let t = label_exec(k + 1, &members[j]);
            let ghost before = rows(lines@);
            lines.push(t);
            assert(rows(lines@) =~= before.push(t@));
            assert(lm.take(j + 1).map_values(|l: Seq<char>| label((k + 1) as nat, l)) =~= lm.take(
                j as int,
            ).map_values(|l: Seq<char>| label((k + 1) as nat, l)).push(label((k + 1) as nat, lm[j as int])));
            j += 1;
        }
        assert(lm.take(members.len() as int) == lm);
        let ghost next = lg.take(k + 1);
        assert(next.drop_last() == lg.take(k as int));
        assert(next.last() == lm);
        assert(next.len() == k + 1);
        assert(labeled(next) == labeled(lg.take(k as int)) + lm.map_values(
            |l: Seq<char>| label((k + 1) as nat, l),
        ));
        assert(rows(lines@) =~= l0 + labeled(next));
        k += 1;
    }
    assert(lg.take(groups.len() as int) == lg);
}

impl super::VCard {
    /// The comparison-only text form (see the module documentation).
    pub fn canonical_form(&self, options: HashOptions) -> (r: String)
        ensures
            r@ == canonical_form_spec(self@.properties, options.exclude_photo),
    {
        let ghost ps = self@.properties;
        let x = options.exclude_photo;
        let mut lines: Vec<Vec<char>> = Vec::new();
        let mut keys: Vec<Vec<char>> = Vec::new();
        let mut members: Vec<Vec<Vec<char>>> = Vec::new();
        let mut i: usize = 0;
        assert(rows(lines@) =~= Seq::<Seq<char>>::empty());
        assert(rows(keys@) =~= Seq::<Seq<char>>::empty());
        assert(lists(members@) =~= Seq::<Seq<Seq<char>>>::empty());
        while i < self.properties.len()
            invariant
                i <= self.properties.len(),
                ps == self@.properties,
                ps.len() == self.properties.len(),
                keys.len() == members.len(),
                collect_from(ps, x, i as int, rows(lines@), rows(keys@), lists(members@))
                    == collect_from(ps, x, 0, seq![], seq![], seq![]),
            decreases self.properties.len() - i,
        {
            let p = &self.properties[i];
            assert(ps[i as int] == p@);
            if !is_excluded_exec(p, x) {
                let line = canonical_line(p);
                match &p.group {
                    Some(g) => {
                        let gc = crate::text::chars_of(g.as_str());
                        let key = crate::text::lower_vec(&gc);
                        let ghost lv = line@;
                        let items: Vec<Vec<char>> = vec![line];
                        assert(rows(items@) =~= seq![lv]);
                        merge_keyed_exec(&mut keys, &mut members, key, items);
                    },
                    None => {
                        let ghost before = rows(lines@);
                        let ghost lv = line@;
                        lines.push(line);
                        assert(rows(lines@) =~= before.push(lv));
                    },
                }
            }
            i += 1;
        }
        let ghost c = collect_from(ps, x, 0, seq![], seq![], seq![]);
        assert(rows(lines@) == c.0 && lists(members@) == c.2);
        let sorted_members = sort_each(members);
        let grouped = super::order::sort_lists_exec(sorted_members);
        append_labeled(&mut lines, &grouped);
        let all = super::order::sort_exec(lines);
        let mut out: Vec<char> = vec!['C', 'A', 'N', 'O', 'N', 'I', 'C', 'A', 'L', ':'];
        let v = crate::text::decimal_chars(CANONICAL_VERSION as u64);
        crate::text::append_chars(&mut out, &v);
        out.push('\n');
        let ghost la = rows(all@);
        let ghost head = out@;
        assert(head == header());
        let mut k: usize = 0;
        while k < all.len()
            invariant
                k <= all.len(),
                la == rows(all@),
                out@ == head + concat_lines(la.take(k as int)),
            decreases all.len() - k,
        {
            assert(la.take(k + 1).drop_last() == la.take(k as int));
            assert(la.take(k + 1).last() == all@[k as int]@);
            crate::text::append_chars(&mut out, &all[k]);
            out.push('\n');
            assert(out@ =~= head + concat_lines(la.take(k + 1)));
            k += 1;
        }
        assert(la.take(all.len() as int) == la);
        crate::text::string_of(&out)
    }
}


// ---------------------------------------------------------------------------
// The hash
// ---------------------------------------------------------------------------

/// What SHA-256 gives for `data`.
pub uninterp spec fn sha256(data: Seq<u8>) -> Seq<u8>;

/// `sha2::Sha256::digest`: the SHA-256 digest of `data`, as 32 bytes.
#[verifier::external_body]
fn sha256_digest(data: &[u8]) -> (r: [u8; 32])
    ensures
        r@ == sha256(data@),
{
    let digest = <sha2::Sha256 as sha2::Digest>::digest(data);
    let mut out = [0u8; 32];
    out.copy_from_slice(&digest);
    out
}

/// SHA-256 of a card's canonical form. Comparison only: never sent anywhere.
#[derive(Clone, Copy, PartialEq, Eq, Hash)]
pub struct CardHash(pub(crate) [u8; 32]);

impl View for CardHash {
    type V = Seq<u8>;

    open(crate) spec fn view(&self) -> Seq<u8> {
        self.0@
    }
}

/// The lowercase hex digit for `n` (`0 <= n < 16`).
pub open spec fn hex_digit(n: int) -> char {
    if n < 10 {
        (n + 48) as char
    } else {
        (n + 87) as char
    }
}

/// Lowercase hex, two digits per byte.
pub open spec fn hex_of(b: Seq<u8>) -> Seq<char>
    decreases b.len(),
{
    if b.len() == 0 {
        seq![]
    } else {
        hex_of(b.drop_last()) + seq![hex_digit(b.last() as int / 16), hex_digit(b.last() as int % 16)]
    }
}

/// The value of one hex digit in either case (`char::to_digit(16)`).
pub open spec fn hex_value(c: char) -> Option<u8> {
    if '0' <= c && c <= '9' {
        Some(((c as u32) - 48) as u8)
    } else if 'a' <= c && c <= 'f' {
        Some(((c as u32) - 87) as u8)
    } else if 'A' <= c && c <= 'F' {
        Some(((c as u32) - 55) as u8)
    } else {
        None
    }
}

/// `u8::from_str_radix(s, 16)` where `s` decodes two bytes (one or two
/// characters): an optional leading `+`, then hex digits.
pub open spec fn radix16_byte(cs: Seq<char>) -> Option<u8> {
    if cs.len() == 1 {
        if cs[0] == '+' {
            None
        } else {
            hex_value(cs[0])
        }
    } else if cs.len() == 2 {
        if cs[0] == '+' {
            hex_value(cs[1])
        } else {
            match (hex_value(cs[0]), hex_value(cs[1])) {
                (Some(a), Some(b)) => Some((a * 16 + b) as u8),
                _ => None,
            }
        }
    } else {
        None
    }
}

/// The message of `ParseIntError` for a bad digit.
pub open spec fn invalid_digit_text() -> Seq<char> {
    "invalid digit found in string"@
}

/// The message for hex of the wrong length (`n` bytes).
pub open spec fn hex_length_text(n: nat) -> Seq<char> {
    "CardHash hex must be 64 chars, got "@ + decimal(n)
}

/// One pair of bytes read as a byte: decoded as UTF-8, then parsed as hex.
pub open spec fn parse_pair(p: Seq<u8>) -> Result<u8, Seq<char>> {
    if !vstd::utf8::valid_utf8(p) {
        Err(crate::text::utf8_error_text(p))
    } else {
        match radix16_byte(vstd::utf8::decode_utf8(p)) {
            Some(v) => Ok(v),
            None => Err(invalid_digit_text()),
        }
    }
}

/// Pairs `i..32` of `b` read onto `acc`; the first bad pair decides.
pub open spec fn hex_pairs_from(b: Seq<u8>, i: int, acc: Seq<u8>) -> Result<Seq<u8>, Seq<char>>
    decreases 32 - i,
{
    if i < 0 || i >= 32 {
        Ok(acc)
    } else {
        match parse_pair(b.subrange(2 * i, 2 * i + 2)) {
            Err(m) => Err(m),
            Ok(v) => hex_pairs_from(b, i + 1, acc.push(v)),
        }
    }
}

/// The hash bytes that the text with UTF-8 bytes `b` stands for, or the
/// message of why it does not stand for any.
pub open spec fn from_hex_spec(b: Seq<u8>) -> Result<Seq<u8>, Seq<char>> {
    if b.len() != 64 {
        Err(hex_length_text(b.len()))
    } else {
        hex_pairs_from(b, 0, seq![])
    }
}

fn hex_digit_exec(n: u8) -> (r: char)
    requires
        n < 16,
    ensures
        r == hex_digit(n as int),
{
    if n < 10 {
        (n + 48) as char
    } else {
        (n + 87) as char
    }
}

fn hex_value_exec(c: char) -> (r: Option<u8>)
    ensures
        r == hex_value(c),
{
    if '0' <= c && c <= '9' {
        Some(((c as u32) - 48) as u8)
    } else if 'a' <= c && c <= 'f' {
        Some(((c as u32) - 87) as u8)
    } else if 'A' <= c && c <= 'F' {
        Some(((c as u32) - 55) as u8)
    } else {
        None
    }
}

fn radix16_exec(cs: &[char]) -> (r: Option<u8>)
    ensures
        r == radix16_byte(cs@),
{
    if cs.len() == 1 {
        if cs[0] == '+' {
            None
        } else {
            hex_value_exec(cs[0])
        }
    } else if cs.len() == 2 {
        if cs[0] == '+' {
            hex_value_exec(cs[1])
        } else {
            match (hex_value_exec(cs[0]), hex_value_exec(cs[1])) {
                (Some(a), Some(b)) => Some(a * 16 + b),
                _ => None,
            }
        }
    } else {
        None
    }
}

impl CardHash {
    fn of(bytes: &[u8]) -> (r: CardHash)
        ensures
            r@ == sha256(bytes@),
    {
        CardHash(sha256_digest(bytes))
    }

    /// Lowercase hex representation (64 chars).
    pub fn as_hex(&self) -> (r: String)
        ensures
            r@ == hex_of(self@),
    {
        let mut out: Vec<char> = Vec::new();
        let mut i: usize = 0;
        while i < 32
            invariant
                i <= 32,
                self@.len() == 32,
                out@ == hex_of(self@.take(i as int)),
            decreases 32 - i,
        {
            let b = self.0[i];
            assert(self@.take(i + 1).drop_last() == self@.take(i as int));
            assert(self@.take(i + 1).last() == b);
            out.push(hex_digit_exec(b / 16));
            out.push(hex_digit_exec(b % 16));
            i += 1;
        }
        assert(self@.take(32) == self@);
        crate::text::string_of(&out)
    }

    /// Parses the 64-character hex form produced by `as_hex`.
    pub fn from_hex(s: &str) -> (r: Result<CardHash, crate::Error>)
        ensures
            match (r, from_hex_spec(vstd::utf8::encode_utf8(s@))) {
                (Ok(h), Ok(v)) => h@ == v,
                (Err(crate::Error::Validation(m)), Err(t)) => m@ == t,
                _ => false,
            },
    {
        let b = s.as_bytes();
        let ghost bv = b@;
        assert(bv == vstd::utf8::encode_utf8(s@));
        if b.len() != 64 {
            let mut m = String::from_str("CardHash hex must be 64 chars, got ");
            let digits = crate::text::decimal_chars(b.len() as u64);
            let d = crate::text::string_of(&digits);
            m.append(d.as_str());
            proof {
                reveal_strlit("CardHash hex must be 64 chars, got ");
            }
            return Err(crate::Error::Validation(m));
        }
        let mut out = [0u8; 32];
        let mut i: usize = 0;
        assert(out@.take(0) =~= Seq::<u8>::empty());
        while i < 32
            invariant
                i <= 32,
                bv == b@,
                bv == vstd::utf8::encode_utf8(s@),
                b@.len() == 64,
                out@.len() == 32,
                hex_pairs_from(bv, i as int, out@.take(i as int)) == hex_pairs_from(bv, 0, seq![]),
            decreases 32 - i,
        {
            let pair = super::unfold::byte_range(b, 2 * i, 2 * i + 2);
            let ghost acc = out@.take(i as int);
            assert(pair@ == bv.subrange(2 * i as int, 2 * i + 2));
            match crate::text::decode_utf8_string(pair.as_slice()) {
                Err(m) => {
                    assert(parse_pair(pair@) == Err::<u8, Seq<char>>(m@));
                    assert(hex_pairs_from(bv, i as int, acc) == Err::<Seq<u8>, Seq<char>>(m@));
                    return Err(crate::Error::Validation(m));
                },
                Ok(t) => {
                    let cs = crate::text::chars_of(t.as_str());
                    match radix16_exec(&cs) {
                        None => {
                            proof {
                                reveal_strlit("invalid digit found in string");
                            }
                            assert(parse_pair(pair@) == Err::<u8, Seq<char>>(invalid_digit_text()));
                            assert(hex_pairs_from(bv, i as int, acc) == Err::<Seq<u8>, Seq<char>>(
                                invalid_digit_text(),
                            ));
                            return Err(
                                crate::Error::Validation(
                                    String::from_str("invalid digit found in string"),
                                ),
                            );
                        },
                        Some(v) => {
                            let ghost before = out@.take(i as int);
                            out[i] = v;
                            assert(out@.take(i + 1) =~= before.push(v));
                        },
                    }
                },
            }
            i += 1;
        }
        assert(out@.take(32) == out@);
        Ok(CardHash(out))
    }

    pub fn as_bytes(&self) -> (r: &[u8; 32])
        ensures
            r@ == self@,
    {
        &self.0
    }

    /// The hash as text: its lowercase hex (its `Display` form).
    pub fn to_string(&self) -> (r: String)
        ensures
            r@ == hex_of(self@),
    {
        self.as_hex()
    }

    /// `CardHash(<hex>)` (its `Debug` form).
    pub fn debug_string(&self) -> (r: String)
        ensures
            r@ == "CardHash("@ + hex_of(self@) + ")"@,
    {
        let mut out = String::from_str("CardHash(");
        let hex = self.as_hex();
        out.append(hex.as_str());
        out.append(")");
        out
    }
}

impl super::VCard {
    /// Hash of the canonical form: equal hashes mean "no meaningful change".
    pub fn canonical_hash(&self, options: HashOptions) -> (r: CardHash)
        ensures
            r@ == sha256(
                vstd::utf8::encode_utf8(canonical_form_spec(self@.properties, options.exclude_photo)),
            ),
    {
        let form = self.canonical_form(options);
        CardHash::of(form.as_str().as_bytes())
    }
}


// ---------------------------------------------------------------------------
// Reading back the hex form
// ---------------------------------------------------------------------------

#[verifier::spinoff_prover]
proof fn lemma_hex_of_shape(b: Seq<u8>)
    ensures
        hex_of(b).len() == 2 * b.len(),
        forall|k: int|
            0 <= k < b.len() ==> #[trigger] hex_of(b)[2 * k] == hex_digit(b[k] as int / 16)
                && hex_of(b)[2 * k + 1] == hex_digit(b[k] as int % 16),
    decreases b.len(),
{
    if b.len() > 0 {
        let front = b.drop_last();
        lemma_hex_of_shape(front);
        let tail = seq![hex_digit(b.last() as int / 16), hex_digit(b.last() as int % 16)];
        assert(hex_of(b) == hex_of(front) + tail);
        assert forall|k: int| 0 <= k < b.len() implies #[trigger] hex_of(b)[2 * k] == hex_digit(
            b[k] as int / 16,
        ) && hex_of(b)[2 * k + 1] == hex_digit(b[k] as int % 16) by {
            if k < b.len() - 1 {
                assert(front[k] == b[k]);
                assert(hex_of(b)[2 * k] == hex_of(front)[2 * k]);
                assert(hex_of(b)[2 * k + 1] == hex_of(front)[2 * k + 1]);
            } else {
                assert(hex_of(b)[2 * k] == tail[0]);
                assert(hex_of(b)[2 * k + 1] == tail[1]);
            }
        }
    }
}

proof fn lemma_hex_digit_value(n: int)
    requires
        0 <= n < 16,
    ensures
        hex_value(hex_digit(n)) == Some(n as u8),
        hex_digit(n) != '+',
        '\0' <= hex_digit(n) <= '\u{7f}',
{
}

proof fn lemma_ascii_pair(c0: char, c1: char)
    requires
        '\0' <= c0 <= '\u{7f}',
        '\0' <= c1 <= '\u{7f}',
    ensures
        vstd::utf8::valid_utf8(seq![c0 as u8, c1 as u8]),
        vstd::utf8::decode_utf8(seq![c0 as u8, c1 as u8]) == seq![c0, c1],
{
    let cs = seq![c0, c1];
    assert(vstd::utf8::is_ascii_chars(cs));
    vstd::utf8::is_ascii_chars_encode_utf8(cs);
    let e = vstd::utf8::encode_utf8(cs);
    assert(e =~= seq![c0 as u8, c1 as u8]);
    vstd::utf8::encode_utf8_valid_utf8(cs);
    vstd::utf8::encode_utf8_decode_utf8(cs);
}

/// Reading back the hex form of a hash gives the hash: `from_hex` undoes
/// `as_hex`.
pub proof fn lemma_hex_round_trip(h: CardHash)
    ensures
        from_hex_spec(vstd::utf8::encode_utf8(hex_of(h@))) == Ok::<Seq<u8>, Seq<char>>(h@),
{
    let b = h@;
    assert(b.len() == 32);
    let cs = hex_of(b);
    lemma_hex_of_shape(b);
    assert(vstd::utf8::is_ascii_chars(cs)) by {
        assert forall|j: int| 0 <= j < cs.len() implies '\0' <= #[trigger] cs[j] <= '\u{7f}' by {
            let k = j / 2;
            assert(0 <= k < 32);
            if j % 2 == 0 {
                assert(j == 2 * k);
                assert(cs[2 * k] == hex_digit(b[k] as int / 16));
                lemma_hex_digit_value(b[k] as int / 16);
            } else {
                assert(j == 2 * k + 1);
                assert(cs[2 * k] == hex_digit(b[k] as int / 16));
                lemma_hex_digit_value(b[k] as int % 16);
            }
        }
    }
    vstd::utf8::is_ascii_chars_encode_utf8(cs);
    let e = vstd::utf8::encode_utf8(cs);
    assert(e.len() == 64);
    lemma_pairs_from(b, e, 0);
    assert(b.take(0) =~= Seq::<u8>::empty());
}

proof fn lemma_pairs_from(b: Seq<u8>, e: Seq<u8>, k: int)
    requires
        b.len() == 32,
        e.len() == 64,
        0 <= k <= 32,
        forall|j: int| 0 <= j < 64 ==> #[trigger] e[j] == hex_of(b)[j] as u8,
    ensures
        hex_pairs_from(e, k, b.take(k)) == Ok::<Seq<u8>, Seq<char>>(b),
    decreases 32 - k,
{
    lemma_hex_of_shape(b);
    if k == 32 {
        assert(b.take(32) == b);
    } else {
        let cs = hex_of(b);
        assert(cs[2 * k] == hex_digit(b[k] as int / 16));
        let c0 = cs[2 * k];
        let c1 = cs[2 * k + 1];
        lemma_hex_digit_value(b[k] as int / 16);
        lemma_hex_digit_value(b[k] as int % 16);
        assert(e[2 * k] == c0 as u8);
        assert(e[2 * k + 1] == c1 as u8);
        let pair = e.subrange(2 * k, 2 * k + 2);
        assert(pair =~= seq![c0 as u8, c1 as u8]);
        lemma_ascii_pair(c0, c1);
        assert(radix16_byte(seq![c0, c1]) == Some(b[k]));
        assert(parse_pair(pair) == Ok::<u8, Seq<char>>(b[k]));
        assert(b.take(k).push(b[k]) =~= b.take(k + 1));
        lemma_pairs_from(b, e, k + 1);
    }
}


/// Every character of `s` is a hex digit, in either case.
pub open spec fn all_hex_digits(s: Seq<char>) -> bool {
    forall|j: int| 0 <= j < s.len() ==> #[trigger] hex_value(s[j]) is Some
}

/// The byte that the hex digits `a` and `b` stand for.
pub open spec fn hex_pair_value(a: char, b: char) -> u8 {
    (hex_value(a)->Some_0 * 16 + hex_value(b)->Some_0) as u8
}

proof fn lemma_hex_digit_lower(c: char)
    requires
        hex_value(c) is Some,
    ensures
        hex_value(c)->Some_0 < 16,
        hex_digit(hex_value(c)->Some_0 as int) == crate::text::lower(c),
        '\0' <= c <= '\u{7f}',
        c != '+',
{
}

proof fn lemma_digit_pairs(s: Seq<char>, e: Seq<u8>, v: Seq<u8>, k: int)
    requires
        s.len() == 64,
        all_hex_digits(s),
        e.len() == 64,
        forall|j: int| 0 <= j < 64 ==> #[trigger] e[j] == s[j] as u8,
        v.len() == 32,
        forall|i: int| 0 <= i < 32 ==> #[trigger] v[i] == hex_pair_value(s[2 * i], s[2 * i + 1]),
        0 <= k <= 32,
    ensures
        hex_pairs_from(e, k, v.take(k)) == Ok::<Seq<u8>, Seq<char>>(v),
    decreases 32 - k,
{
    if k == 32 {
        assert(v.take(32) == v);
    } else {
        let c0 = s[2 * k];
        let c1 = s[2 * k + 1];
        lemma_hex_digit_lower(c0);
        lemma_hex_digit_lower(c1);
        let pair = e.subrange(2 * k, 2 * k + 2);
        assert(pair =~= seq![c0 as u8, c1 as u8]);
        lemma_ascii_pair(c0, c1);
        assert(radix16_byte(seq![c0, c1]) == Some(v[k]));
        assert(parse_pair(pair) == Ok::<u8, Seq<char>>(v[k]));
        assert(v.take(k).push(v[k]) =~= v.take(k + 1));
        lemma_digit_pairs(s, e, v, k + 1);
    }
}

/// Any 64 hex digits, in either case, read as a hash whose hex form is the
/// same digits in lowercase: `as_hex` undoes `from_hex` up to case.
#[verifier::spinoff_prover]
pub proof fn lemma_hex_read_back(s: Seq<char>)
    requires
        s.len() == 64,
        all_hex_digits(s),
    ensures
        from_hex_spec(vstd::utf8::encode_utf8(s)) matches Ok(v) && v.len() == 32 && hex_of(v)
            == lower_seq(s),
{
    assert(vstd::utf8::is_ascii_chars(s)) by {
        assert forall|j: int| 0 <= j < s.len() implies '\0' <= #[trigger] s[j] <= '\u{7f}' by {
            lemma_hex_digit_lower(s[j]);
        }
    }
    vstd::utf8::is_ascii_chars_encode_utf8(s);
    let e = vstd::utf8::encode_utf8(s);
    let v = Seq::new(32, |i: int| hex_pair_value(s[2 * i], s[2 * i + 1]));
    assert(v.take(0) =~= Seq::<u8>::empty());
    lemma_digit_pairs(s, e, v, 0);
    lemma_hex_of_shape(v);
    assert(hex_of(v) =~= lower_seq(s)) by {
        assert forall|j: int| 0 <= j < 64 implies #[trigger] hex_of(v)[j] == lower_seq(s)[j] by {
            let i = j / 2;
            let a = hex_value(s[2 * i])->Some_0;
            let b = hex_value(s[2 * i + 1])->Some_0;
            lemma_hex_digit_lower(s[2 * i]);
            lemma_hex_digit_lower(s[2 * i + 1]);
            assert(v[i] == hex_pair_value(s[2 * i], s[2 * i + 1]));
            assert(v[i] as int == a * 16 + b);
            assert(v[i] as int / 16 == a);
            assert(v[i] as int % 16 == b);
            if j % 2 == 0 {
                assert(j == 2 * i);
                assert(hex_of(v)[2 * i] == hex_digit(v[i] as int / 16));
            } else {
                assert(j == 2 * i + 1);
                assert(hex_of(v)[2 * i] == hex_digit(v[i] as int / 16));
                assert(hex_of(v)[2 * i + 1] == hex_digit(v[i] as int % 16));
            }
        }
    }
}

// ---------------------------------------------------------------------------
// What the canonical form ignores
// ---------------------------------------------------------------------------

proof fn lemma_collect_shift(
    ps: Seq<PropertyView>,
    p: PropertyView,
    k: int,
    x: bool,
    j: int,
    lines: Seq<Seq<char>>,
    keys: Seq<Seq<char>>,
    members: Seq<Seq<Seq<char>>>,
)
    requires
        0 <= k <= j <= ps.len(),
    ensures
        collect_from(ps.insert(k, p), x, j + 1, lines, keys, members) == collect_from(
            ps,
            x,
            j,
            lines,
            keys,
            members,
        ),
    decreases ps.len() - j,
{
    let q = ps.insert(k, p);
    if j < ps.len() {
        assert(q[j + 1] == ps[j]);
        let line = canonical_line_spec(ps[j]);
        if is_excluded(ps[j], x) {
            lemma_collect_shift(ps, p, k, x, j + 1, lines, keys, members);
        } else {
            match ps[j].group {
                Some(g) => {
                    let m = merge_keyed(keys, members, lower_seq(g), seq![line]);
                    lemma_collect_shift(ps, p, k, x, j + 1, lines, m.0, m.1);
                },
                None => {
                    lemma_collect_shift(ps, p, k, x, j + 1, lines.push(line), keys, members);
                },
            }
        }
    }
}

proof fn lemma_collect_skip(
    ps: Seq<PropertyView>,
    p: PropertyView,
    k: int,
    x: bool,
    i: int,
    lines: Seq<Seq<char>>,
    keys: Seq<Seq<char>>,
    members: Seq<Seq<Seq<char>>>,
)
    requires
        0 <= i <= k <= ps.len(),
        is_excluded(p, x),
    ensures
        collect_from(ps.insert(k, p), x, i, lines, keys, members) == collect_from(
            ps,
            x,
            i,
            lines,
            keys,
            members,
        ),
    decreases ps.len() - i,
{
    let q = ps.insert(k, p);
    if i < k {
        assert(q[i] == ps[i]);
        let line = canonical_line_spec(ps[i]);
        if is_excluded(ps[i], x) {
            lemma_collect_skip(ps, p, k, x, i + 1, lines, keys, members);
        } else {
            match ps[i].group {
                Some(g) => {
                    let m = merge_keyed(keys, members, lower_seq(g), seq![line]);
                    lemma_collect_skip(ps, p, k, x, i + 1, lines, m.0, m.1);
                },
                None => {
                    lemma_collect_skip(ps, p, k, x, i + 1, lines.push(line), keys, members);
                },
            }
        }
    } else {
        assert(q[k] == p);
        lemma_collect_shift(ps, p, k, x, k, lines, keys, members);
    }
}

/// Volatile properties do not count: adding a `REV` or `PRODID` property
/// anywhere (or a `PHOTO` when photos are excluded) leaves the canonical
/// form, and so the hash, unchanged.
pub proof fn lemma_excluded_property_ignored(
    ps: Seq<PropertyView>,
    p: PropertyView,
    k: int,
    exclude_photo: bool,
)
    requires
        0 <= k <= ps.len(),
        is_excluded(p, exclude_photo),
    ensures
        canonical_form_spec(ps.insert(k, p), exclude_photo) == canonical_form_spec(
            ps,
            exclude_photo,
        ),
{
    lemma_collect_skip(ps, p, k, exclude_photo, 0, seq![], seq![], seq![]);
}


// ---------------------------------------------------------------------------
// Letter case of parameter values
// ---------------------------------------------------------------------------

/// Whether the upper-cased parameter name `n` is `TYPE`, `ENCODING`, `VALUE`
/// or `CHARSET`, the parameters whose values ignore letter case.
pub open spec fn names_case_free_param(n: Seq<char>) -> bool {
    n == seq!['T', 'Y', 'P', 'E'] || n == seq!['E', 'N', 'C', 'O', 'D', 'I', 'N', 'G'] || n
        == seq!['V', 'A', 'L', 'U', 'E'] || n == seq!['C', 'H', 'A', 'R', 'S', 'E', 'T']
}

/// `p` and `q` are the same property but for the position in the text and
/// the letter case of the values of `TYPE`, `ENCODING`, `VALUE` and
/// `CHARSET` parameters.
pub open spec fn same_but_param_case(p: PropertyView, q: PropertyView) -> bool {
    &&& p.group == q.group
    &&& p.name == q.name
    &&& p.value == q.value
    &&& p.params.len() == q.params.len()
    &&& forall|i: int|
        0 <= i < p.params.len() ==> #[trigger] p.params[i].name == q.params[i].name
            && p.params[i].values.len() == q.params[i].values.len()
    &&& forall|i: int, j: int|
        0 <= i < p.params.len() && 0 <= j < p.params[i].values.len() ==> if names_case_free_param(
            upper_seq(p.params[i].name),
        ) {
            upper_seq(#[trigger] p.params[i].values[j]) == upper_seq(q.params[i].values[j])
        } else {
            p.params[i].values[j] == q.params[i].values[j]
        }
}

proof fn lemma_param_values_agree(n: Seq<char>, a: Seq<Seq<char>>, b: Seq<Seq<char>>)
    requires
        a.len() == b.len(),
        forall|j: int|
            0 <= j < a.len() ==> if names_case_free_param(n) {
                upper_seq(#[trigger] a[j]) == upper_seq(b[j])
            } else {
                a[j] == b[j]
            },
    ensures
        canonical_param_values(n, a) == canonical_param_values(n, b),
{
    assert forall|j: int| 0 <= j < a.len() implies canonical_param_value(n, a[j])
        == canonical_param_value(n, b[j]) by {
        if names_case_free_param(n) {
            assert(upper_seq(a[j]) == upper_seq(b[j]));
        }
    }
    assert(canonical_param_values(n, a) =~= canonical_param_values(n, b));
}

proof fn lemma_merge_params_agree(
    p: PropertyView,
    q: PropertyView,
    i: int,
    keys: Seq<Seq<char>>,
    vals: Seq<Seq<Seq<char>>>,
)
    requires
        same_but_param_case(p, q),
        0 <= i,
    ensures
        merge_params_from(p.params, i, keys, vals) == merge_params_from(q.params, i, keys, vals),
    decreases p.params.len() - i,
{
    if i < p.params.len() {
        assert(p.params[i].name == q.params[i].name);
        let n = upper_seq(p.params[i].name);
        assert forall|j: int| 0 <= j < p.params[i].values.len() implies if names_case_free_param(
            n,
        ) {
            upper_seq(#[trigger] p.params[i].values[j]) == upper_seq(q.params[i].values[j])
        } else {
            p.params[i].values[j] == q.params[i].values[j]
        } by {}
        lemma_param_values_agree(n, p.params[i].values, q.params[i].values);
        let m = merge_keyed(keys, vals, n, canonical_param_values(n, p.params[i].values));
        lemma_merge_params_agree(p, q, i + 1, m.0, m.1);
    }
}

/// Letter case in the values of `TYPE`, `ENCODING`, `VALUE` and `CHARSET`
/// parameters does not count: two properties that differ only there have
/// the same canonical line.
pub proof fn lemma_param_case_ignored_in_line(p: PropertyView, q: PropertyView)
    requires
        same_but_param_case(p, q),
    ensures
        canonical_line_spec(p) == canonical_line_spec(q),
{
    lemma_merge_params_agree(p, q, 0, seq![], seq![]);
}

proof fn lemma_collect_agree(
    ps: Seq<PropertyView>,
    qs: Seq<PropertyView>,
    x: bool,
    i: int,
    lines: Seq<Seq<char>>,
    keys: Seq<Seq<char>>,
    members: Seq<Seq<Seq<char>>>,
)
    requires
        ps.len() == qs.len(),
        forall|k: int| 0 <= k < ps.len() ==> same_but_param_case(#[trigger] ps[k], qs[k]),
        0 <= i,
    ensures
        collect_from(ps, x, i, lines, keys, members) == collect_from(qs, x, i, lines, keys, members),
    decreases ps.len() - i,
{
    if i < ps.len() {
        assert(same_but_param_case(ps[i], qs[i]));
        lemma_param_case_ignored_in_line(ps[i], qs[i]);
        let line = canonical_line_spec(ps[i]);
        if is_excluded(ps[i], x) {
            lemma_collect_agree(ps, qs, x, i + 1, lines, keys, members);
        } else {
            match ps[i].group {
                Some(g) => {
                    let m = merge_keyed(keys, members, lower_seq(g), seq![line]);
                    lemma_collect_agree(ps, qs, x, i + 1, lines, m.0, m.1);
                },
                None => {
                    lemma_collect_agree(ps, qs, x, i + 1, lines.push(line), keys, members);
                },
            }
        }
    }
}

/// A server that rewrites only the letter case of `TYPE`, `ENCODING`,
/// `VALUE` or `CHARSET` parameter values (`VALUE=uri` as `VALUE=URI`) does
/// not change the canonical form, and so not the hash.
pub proof fn lemma_param_case_ignored(ps: Seq<PropertyView>, qs: Seq<PropertyView>, exclude_photo: bool)
    requires
        ps.len() == qs.len(),
        forall|k: int| 0 <= k < ps.len() ==> same_but_param_case(#[trigger] ps[k], qs[k]),
    ensures
        canonical_form_spec(ps, exclude_photo) == canonical_form_spec(qs, exclude_photo),
{
    lemma_collect_agree(ps, qs, exclude_photo, 0, seq![], seq![], seq![]);
}

/// The canonical line of a property with the one parameter `n` whose single
/// value is written `w` in the canonical form.
pub open spec fn single_param_line(p: PropertyView, n: Seq<char>, w: Seq<char>) -> Seq<char> {
    upper_seq(p.name) + seq![';'] + upper_seq(n) + seq!['='] + w + seq![':'] + canonical_value_spec(
        p.value,
    )
}

proof fn lemma_single_param_line(p: PropertyView, n: Seq<char>, v: Seq<char>)
    requires
        p.params == seq![ParamView { name: n, values: seq![v] }],
    ensures
        canonical_line_spec(p) == single_param_line(
            p,
            n,
            canonical_param_value(upper_seq(n), v),
        ),
{
    let un = upper_seq(n);
    let w = canonical_param_value(un, v);
    let cv = canonical_param_values(un, seq![v]);
    assert(cv =~= seq![w]);
    let e1: Seq<Seq<char>> = seq![];
    let e2: Seq<Seq<Seq<char>>> = seq![];
    assert(unique_pos_from(e1, un, 0) == 0);
    let m = merge_keyed(e1, e2, un, cv);
    assert(m.0 =~= seq![un]);
    assert(m.1 =~= seq![cv]);
    assert(merge_params_from(p.params, 1, m.0, m.1) == m);
    assert(merge_params_from(p.params, 0, e1, e2) == m);
    assert(unique_pos_from(e1, w, 0) == 0);
    assert(insert_unique(e1, w) =~= seq![w]);
    assert(cv[0] == w);
    assert(super::order::sort_unique_from(cv, 1, seq![w]) == seq![w]);
    assert(sort_unique(cv) =~= seq![w]);
    assert(join(seq![w], ',') == w);
    assert(join(cv, ',') == w);
    assert(params_text(m.0, m.1, 0) =~= Seq::<char>::empty());
    assert(params_text(m.0, m.1, 1) =~= seq![';'] + un + seq!['='] + w);
}

/// A property with one parameter of one value: under `TYPE`, `VALUE` or
/// `CHARSET` the value is upper-cased; under `ENCODING` it is upper-cased
/// and `BASE64` (in any case) becomes `B`; under any other parameter it is
/// kept as written. The parameter's name is upper-cased.
pub proof fn lemma_single_param_value(p: PropertyView, n: Seq<char>, v: Seq<char>)
    requires
        p.params == seq![ParamView { name: n, values: seq![v] }],
    ensures
        upper_seq(n) == seq!['T', 'Y', 'P', 'E'] || upper_seq(n) == seq!['V', 'A', 'L', 'U', 'E']
            || upper_seq(n) == seq!['C', 'H', 'A', 'R', 'S', 'E', 'T'] ==> canonical_line_spec(p)
            == single_param_line(p, n, upper_seq(v)),
        upper_seq(n) == seq!['E', 'N', 'C', 'O', 'D', 'I', 'N', 'G'] && upper_seq(v) == seq![
            'B',
            'A',
            'S',
            'E',
            '6',
            '4',
        ] ==> canonical_line_spec(p) == single_param_line(p, n, seq!['B']),
        upper_seq(n) == seq!['E', 'N', 'C', 'O', 'D', 'I', 'N', 'G'] && upper_seq(v) != seq![
            'B',
            'A',
            'S',
            'E',
            '6',
            '4',
        ] ==> canonical_line_spec(p) == single_param_line(p, n, upper_seq(v)),
        !names_case_free_param(upper_seq(n)) ==> canonical_line_spec(p) == single_param_line(
            p,
            n,
            v,
        ),
{
    lemma_single_param_line(p, n, v);
}

} // verus!

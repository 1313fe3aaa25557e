//! Who a card is: a name and company safe to log, and the normalized keys
//! used to recognise the same contact on both sides.

use vstd::prelude::*;
use crate::text::{
    is_control, is_digit, is_space, join, join_exec, rows, strings, trim, trim_start,
    unicode_lower,
};
use super::card::{named, ref_views};
use super::escape::{split_components_spec, split_components_from, unescape_spec};
use super::order::{sort_unique, strictly_sorted};
use super::{Property, PropertyView, VCard};

verus! {

// ---------------------------------------------------------------------------
// Text rules
// ---------------------------------------------------------------------------

/// `s` without control characters.
pub open spec fn without_controls(s: Seq<char>) -> Seq<char>
    decreases s.len(),
{
    if s.len() == 0 {
        seq![]
    } else if is_control(s.last()) {
        without_controls(s.drop_last())
    } else {
        without_controls(s.drop_last()).push(s.last())
    }
}

/// The white-space separated words of `s` (`str::split_whitespace`).
pub open spec fn words(s: Seq<char>) -> Seq<Seq<char>>
    decreases s.len(),
{
    if s.len() == 0 {
        seq![]
    } else {
        let w = words(s.drop_last());
        let c = s.last();
        if is_space(c) {
            w
        } else if s.len() >= 2 && !is_space(s[s.len() - 2]) {
            w.drop_last().push(w.last().push(c))
        } else {
            w.push(seq![c])
        }
    }
}

/// On one line: control characters dropped, words joined by single spaces.
pub open spec fn collapse_spec(s: Seq<char>) -> Seq<char> {
    join(words(without_controls(s)), ' ')
}

/// `Some(s)` unless `s` is empty.
pub open spec fn non_empty(s: Seq<char>) -> Option<Seq<char>> {
    if s.len() == 0 {
        None
    } else {
        Some(s)
    }
}

pub open spec fn is_phone_char(c: char) -> bool {
    is_digit(c) || is_space(c) || c == '+' || c == '-' || c == '(' || c == ')' || c == '.'
}

/// An email address or phone number, used as `FN` by contacts with no
/// name: it holds `@`, or it holds a digit and only phone characters.
pub open spec fn looks_like_contact_point_spec(s: Seq<char>) -> bool {
    s.contains('@') || ((exists|i: int| 0 <= i < s.len() && #[trigger] is_digit(s[i])) && (forall|
        i: int,
    |
        0 <= i < s.len() ==> #[trigger] is_phone_char(s[i])))
}

/// The ASCII digits of `s`, in order.
pub open spec fn digits_of(s: Seq<char>) -> Seq<char>
    decreases s.len(),
{
    if s.len() == 0 {
        seq![]
    } else if is_digit(s.last()) {
        digits_of(s.drop_last()).push(s.last())
    } else {
        digits_of(s.drop_last())
    }
}

/// Digits only, keeping a leading `+`; `None` when there are no digits.
pub open spec fn normalize_phone_spec(v: Seq<char>) -> Option<Seq<char>> {
    let d = digits_of(v);
    if d.len() == 0 {
        None
    } else if trim_start(v).len() > 0 && trim_start(v)[0] == '+' {
        Some(seq!['+'] + d)
    } else {
        Some(d)
    }
}

proof fn lemma_words_nonempty(s: Seq<char>)
    requires
        s.len() > 0,
        !is_space(s.last()),
    ensures
        words(s).len() > 0,
    decreases s.len(),
{
    if s.len() >= 2 && !is_space(s[s.len() - 2]) {
        assert(s.drop_last().last() == s[s.len() - 2]);
        lemma_words_nonempty(s.drop_last());
    }
}

fn without_controls_exec(s: &[char]) -> (r: Vec<char>)
    ensures
        r@ == without_controls(s@),
{
    let mut out: Vec<char> = Vec::new();
    let mut i: usize = 0;
    while i < s.len()
        invariant
            i <= s.len(),
            out@ == without_controls(s@.take(i as int)),
        decreases s.len() - i,
    {
        assert(s@.take(i + 1).drop_last() == s@.take(i as int));
        assert(s@.take(i + 1).last() == s@[i as int]);
        if !crate::text::is_control_char(s[i]) {
            out.push(s[i]);
        }
        i += 1;
    }
    assert(s@.take(s.len() as int) == s@);
    out
}

fn words_exec(s: &[char]) -> (r: Vec<Vec<char>>)
    ensures
        rows(r@) == words(s@),
{
    let mut out: Vec<Vec<char>> = Vec::new();
    let mut i: usize = 0;
    assert(rows(out@) =~= Seq::<Seq<char>>::empty());
    while i < s.len()
        invariant
            i <= s.len(),
            rows(out@) == words(s@.take(i as int)),
        decreases s.len() - i,
    {
        let ghost t = s@.take(i + 1);
        assert(t.drop_last() == s@.take(i as int));
        assert(t.last() == s@[i as int]);
        let c = s[i];
        if crate::text::is_space_char(c) {
        } else if i > 0 && !crate::text::is_space_char(s[i - 1]) {
            assert(t[t.len() - 2] == s@[i - 1]);
            proof {
                assert(s@.take(i as int).last() == s@[i - 1]);
                lemma_words_nonempty(s@.take(i as int));
            }
            let ghost before = rows(out@);
            let mut last = out.pop().unwrap();
            assert(rows(out@) =~= before.drop_last());
            assert(last@ == before.last());
            last.push(c);
            out.push(last);
            assert(rows(out@) =~= before.drop_last().push(before.last().push(c)));
        } else {
            let ghost before = rows(out@);
            let mut w: Vec<char> = Vec::new();
            w.push(c);
            assert(w@ =~= seq![c]);
            out.push(w);
            assert(rows(out@) =~= before.push(seq![c]));
        }
        i += 1;
    }
    assert(s@.take(s.len() as int) == s@);
    out
}

/// The text on one line: control characters dropped and white space runs
/// collapsed to single spaces, with none at either end.
pub fn collapse(s: &[char]) -> (r: Vec<char>)
    ensures
        r@ == collapse_spec(s@),
{
    let kept = without_controls_exec(s);
    let w = words_exec(&kept);
    join_exec(&w, ' ')
}

/// Whether `s` looks like an email address or a phone number.
pub fn looks_like_contact_point(s: &[char]) -> (r: bool)
    ensures
        r == looks_like_contact_point_spec(s@),
{
    let mut has_at = false;
    let mut has_digit = false;
    let mut phone_only = true;
    let mut i: usize = 0;
    while i < s.len()
        invariant
            i <= s.len(),
            has_at == (exists|k: int| 0 <= k < i && s@[k] == '@'),
            has_digit == (exists|k: int| 0 <= k < i && #[trigger] is_digit(s@[k])),
            phone_only == (forall|k: int| 0 <= k < i ==> #[trigger] is_phone_char(s@[k])),
        decreases s.len() - i,
    {
        let c = s[i];
        if c == '@' {
            has_at = true;
        }
        if crate::text::is_digit_char(c) {
            has_digit = true;
        }
        if !(crate::text::is_digit_char(c) || crate::text::is_space_char(c) || c == '+' || c == '-'
            || c == '(' || c == ')' || c == '.') {
            phone_only = false;
        }
        assert(is_digit(s@[i as int]) == is_digit(c));
        assert(is_phone_char(s@[i as int]) == is_phone_char(c));
        i += 1;
    }
    assert(has_at == s@.contains('@'));
    has_at || (has_digit && phone_only)
}

fn digits_exec(s: &[char]) -> (r: Vec<char>)
    ensures
        r@ == digits_of(s@),
{
    let mut out: Vec<char> = Vec::new();
    let mut i: usize = 0;
    while i < s.len()
        invariant
            i <= s.len(),
            out@ == digits_of(s@.take(i as int)),
        decreases s.len() - i,
    {
        assert(s@.take(i + 1).drop_last() == s@.take(i as int));
        assert(s@.take(i + 1).last() == s@[i as int]);
        if crate::text::is_digit_char(s[i]) {
            out.push(s[i]);
        }
        i += 1;
    }
    assert(s@.take(s.len() as int) == s@);
    out
}

/// A phone number as digits only, keeping a leading `+`; `None` when it
/// has no digits.
pub fn normalize_phone(value: &str) -> (r: Option<String>)
    ensures
        match (r, normalize_phone_spec(value@)) {
            (Some(a), Some(b)) => a@ == b,
            (None, None) => true,
            _ => false,
        },
{
    let v = crate::text::chars_of(value);
    let d = digits_exec(&v);
    if d.len() == 0 {
        return None;
    }
    let t = crate::text::trim_start_vec(&v);
    if t.len() > 0 && t[0] == '+' {
        let mut out: Vec<char> = vec!['+'];
        crate::text::append_chars(&mut out, &d);
        Some(crate::text::string_of(&out))
    } else {
        Some(crate::text::string_of(&d))
    }
}


// ---------------------------------------------------------------------------
// Names and organizations
// ---------------------------------------------------------------------------

pub open spec fn fn_word() -> Seq<char> {
    seq!['F', 'N']
}

pub open spec fn n_word() -> Seq<char> {
    seq!['N']
}

pub open spec fn org_word() -> Seq<char> {
    seq!['O', 'R', 'G']
}

pub open spec fn email_word() -> Seq<char> {
    seq!['E', 'M', 'A', 'I', 'L']
}

pub open spec fn tel_word() -> Seq<char> {
    seq!['T', 'E', 'L']
}

pub open spec fn opt_chars(o: Option<Vec<char>>) -> Option<Seq<char>> {
    match o {
        Some(v) => Some(v@),
        None => None,
    }
}

/// The first of the `FN` properties `l` whose value, unescaped and on one
/// line, is not empty.
pub open spec fn fn_name_from(l: Seq<PropertyView>) -> Option<Seq<char>>
    decreases l.len(),
{
    if l.len() == 0 {
        None
    } else {
        match non_empty(collapse_spec(unescape_spec(l[0].value))) {
            Some(n) => Some(n),
            None => fn_name_from(l.drop_first()),
        }
    }
}

/// Component `i` of a structured value, unescaped; empty when missing.
pub open spec fn component(parts: Seq<Seq<char>>, i: int) -> Seq<char> {
    if 0 <= i < parts.len() {
        unescape_spec(parts[i])
    } else {
        seq![]
    }
}

/// `N` is Family;Given;Middle;Prefix;Suffix, shown as
/// "Prefix Given Middle Family Suffix" on one line.
pub open spec fn name_from_n_spec(ps: Seq<PropertyView>) -> Option<Seq<char>> {
    let ns = named(ps, n_word());
    if ns.len() == 0 {
        None
    } else {
        let parts = split_components_spec(ns[0].value);
        non_empty(
            collapse_spec(
                join(
                    seq![
                        component(parts, 3),
                        component(parts, 1),
                        component(parts, 2),
                        component(parts, 0),
                        component(parts, 4),
                    ],
                    ' ',
                ),
            ),
        )
    }
}

/// The first component of the first `ORG`, unescaped and on one line.
pub open spec fn organization_spec(ps: Seq<PropertyView>) -> Option<Seq<char>> {
    let os = named(ps, org_word());
    if os.len() == 0 {
        None
    } else {
        non_empty(collapse_spec(unescape_spec(split_components_spec(os[0].value)[0])))
    }
}

/// The name to show: `FN`, else `N`; none when it looks like an email
/// address or phone number.
pub open spec fn display_name_spec(ps: Seq<PropertyView>) -> Option<Seq<char>> {
    let n = match fn_name_from(named(ps, fn_word())) {
        Some(x) => Some(x),
        None => name_from_n_spec(ps),
    };
    match n {
        None => None,
        Some(x) => if looks_like_contact_point_spec(x) {
            None
        } else {
            Some(x)
        },
    }
}

/// The component `i` of `parts`, unescaped; empty when missing.
fn component_exec(parts: &Vec<Vec<char>>, i: usize) -> (r: Vec<char>)
    ensures
        r@ == component(rows(parts@), i as int),
{
    if i < parts.len() {
        super::escape::unescape_chars(&parts[i])
    } else {
        Vec::new()
    }
}

impl VCard {
    fn fn_name(&self) -> (r: Option<Vec<char>>)
        ensures
            opt_chars(r) == fn_name_from(named(self@.properties, fn_word())),
    {
        let fns = self.properties_named("FN");
        proof {
            reveal_strlit("FN");
            assert("FN"@ =~= fn_word());
        }
        let ghost l = ref_views(fns@);
        assert(l == named(self@.properties, fn_word()));
        let mut i: usize = 0;
        assert(l.skip(0) == l);
        while i < fns.len()
            invariant
                i <= fns.len(),
                l == ref_views(fns@),
                l == named(self@.properties, fn_word()),
                fn_name_from(l.skip(i as int)) == fn_name_from(l),
            decreases fns.len() - i,
        {
            let p = fns[i];
            assert(l.skip(i as int)[0] == p@);
            assert(l.skip(i as int).drop_first() == l.skip(i + 1));
            let v = crate::text::chars_of(p.value.as_str());
            let u = super::escape::unescape_chars(&v);
            let c = collapse(&u);
            if c.len() > 0 {
                return Some(c);
            }
            i += 1;
        }
        assert(l.skip(fns.len() as int).len() == 0);
        None
    }

    /// `N` shown as "Prefix Given Middle Family Suffix".
    fn name_from_n(&self) -> (r: Option<Vec<char>>)
        ensures
            opt_chars(r) == name_from_n_spec(self@.properties),
    {
        let ns = self.properties_named("N");
        proof {
            reveal_strlit("N");
            assert("N"@ =~= n_word());
        }
        assert(ref_views(ns@) == named(self@.properties, n_word()));
        if ns.len() == 0 {
            return None;
        }
        assert(ref_views(ns@)[0] == ns[0]@);
        let v = crate::text::chars_of(ns[0].value.as_str());
        let parts = super::escape::split_components_chars(&v);
        let ghost pr = rows(parts@);
        let mut pieces: Vec<Vec<char>> = Vec::new();
        pieces.push(component_exec(&parts, 3));
        pieces.push(component_exec(&parts, 1));
        pieces.push(component_exec(&parts, 2));
        pieces.push(component_exec(&parts, 0));
        pieces.push(component_exec(&parts, 4));
        assert(rows(pieces@) =~= seq![
            component(pr, 3),
            component(pr, 1),
            component(pr, 2),
            component(pr, 0),
            component(pr, 4),
        ]);
        let joined = join_exec(&pieces, ' ');
        let c = collapse(&joined);
        if c.len() == 0 {
            None
        } else {
            Some(c)
        }
    }

    fn organization(&self) -> (r: Option<Vec<char>>)
        ensures
            opt_chars(r) == organization_spec(self@.properties),
    {
        let os = self.properties_named("ORG");
        proof {
            reveal_strlit("ORG");
            assert("ORG"@ =~= org_word());
        }
        assert(ref_views(os@) == named(self@.properties, org_word()));
        if os.len() == 0 {
            return None;
        }
        assert(ref_views(os@)[0] == os[0]@);
        let v = crate::text::chars_of(os[0].value.as_str());
        let parts = super::escape::split_components_chars(&v);
        proof {
            super::escape::lemma_split_components_nonempty(v@);
        }
        let u = super::escape::unescape_chars(&parts[0]);
        let c = collapse(&u);
        if c.len() == 0 {
            None
        } else {
            Some(c)
        }
    }

    fn display_name(&self) -> (r: Option<Vec<char>>)
        ensures
            opt_chars(r) == display_name_spec(self@.properties),
    {
        let n = match self.fn_name() {
            Some(x) => Some(x),
            None => self.name_from_n(),
        };
        match n {
            None => None,
            Some(x) => if looks_like_contact_point(&x) {
                None
            } else {
                Some(x)
            },
        }
    }
}

// ---------------------------------------------------------------------------
// What may be logged
// ---------------------------------------------------------------------------

/// The only contact data that may be logged: name and company.
#[derive(Debug, Clone, PartialEq, Eq)]
pub struct DisplayIdentity {
    pub(crate) name: Option<String>,
    pub(crate) org: Option<String>,
}

pub struct DisplayIdentityView {
    pub name: Option<Seq<char>>,
    pub org: Option<Seq<char>>,
}

impl View for DisplayIdentity {
    type V = DisplayIdentityView;

    open(crate) spec fn view(&self) -> DisplayIdentityView {
        DisplayIdentityView { name: super::opt_view(self.name), org: super::opt_view(self.org) }
    }
}

/// `<name> (<org>)`; `<no name>` stands in for a missing name and the
/// parenthesis is left out without an organization.
pub open spec fn display_text(d: DisplayIdentityView) -> Seq<char> {
    (match d.name {
        Some(n) => n,
        None => "<no name>"@,
    }) + (match d.org {
        Some(o) => " ("@ + o + ")"@,
        None => seq![],
    })
}

fn opt_string(o: Option<Vec<char>>) -> (r: Option<String>)
    ensures
        super::opt_view(r) == opt_chars(o),
{
    match o {
        Some(v) => Some(crate::text::string_of(&v)),
        None => None,
    }
}

impl DisplayIdentity {
    pub fn name(&self) -> (r: Option<&str>)
        ensures
            match (r, self@.name) {
                (Some(a), Some(b)) => a@ == b,
                (None, None) => true,
                _ => false,
            },
    {
        match &self.name {
            Some(n) => Some(n.as_str()),
            None => None,
        }
    }

    pub fn org(&self) -> (r: Option<&str>)
        ensures
            match (r, self@.org) {
                (Some(a), Some(b)) => a@ == b,
                (None, None) => true,
                _ => false,
            },
    {
        match &self.org {
            Some(o) => Some(o.as_str()),
            None => None,
        }
    }

    /// The identity as text (its `Display` form).
    pub fn to_string(&self) -> (r: String)
        ensures
            r@ == display_text(self@),
    {
        let mut out = match &self.name {
            Some(n) => n.clone(),
            None => String::from_str("<no name>"),
        };
        match &self.org {
            Some(o) => {
                out.append(" (");
                out.append(o.as_str());
                out.append(")");
            },
            None => {},
        }
        out
    }
}

impl VCard {
    /// Name (`FN`, else `N`) and first `ORG` component, unescaped and on one
    /// line. Safe to log.
    pub fn display_identity(&self) -> (r: DisplayIdentity)
        ensures
            r@.name == display_name_spec(self@.properties),
            r@.org == organization_spec(self@.properties),
    {
        DisplayIdentity {
            name: opt_string(self.display_name()),
            org: opt_string(self.organization()),
        }
    }
}


// ---------------------------------------------------------------------------
// Matching the same contact on both sides
// ---------------------------------------------------------------------------

/// Normalized keys for recognising the same contact on both sides. They
/// hold emails and phone numbers, so the debug form shows counts only and
/// they must never be logged. Emails and phones are sets, kept as strictly
/// sorted lists.
#[derive(Clone, PartialEq, Eq)]
pub struct MatchKeys {
    pub(crate) name: Option<String>,
    pub(crate) emails: Vec<String>,
    pub(crate) phones: Vec<String>,
    pub(crate) org: Option<String>,
}

pub struct MatchKeysView {
    pub name: Option<Seq<char>>,
    pub emails: Seq<Seq<char>>,
    pub phones: Seq<Seq<char>>,
    pub org: Option<Seq<char>>,
}

impl View for MatchKeys {
    type V = MatchKeysView;

    open(crate) spec fn view(&self) -> MatchKeysView {
        MatchKeysView {
            name: super::opt_view(self.name),
            emails: strings(self.emails@),
            phones: strings(self.phones@),
            org: super::opt_view(self.org),
        }
    }
}

/// The strings of `l` that are not empty, in order.
pub open spec fn non_empty_only(l: Seq<Seq<char>>) -> Seq<Seq<char>>
    decreases l.len(),
{
    if l.len() == 0 {
        seq![]
    } else if l.last().len() == 0 {
        non_empty_only(l.drop_last())
    } else {
        non_empty_only(l.drop_last()).push(l.last())
    }
}

pub open spec fn opt_lower(o: Option<Seq<char>>) -> Option<Seq<char>> {
    match o {
        Some(x) => Some(unicode_lower(x)),
        None => None,
    }
}

/// Each `EMAIL` value unescaped, trimmed and lower-cased.
pub open spec fn email_candidates(l: Seq<PropertyView>) -> Seq<Seq<char>> {
    l.map_values(|p: PropertyView| unicode_lower(trim(unescape_spec(p.value))))
}

/// The normalized numbers of the `TEL` properties that hold digits.
pub open spec fn phone_keys(l: Seq<PropertyView>) -> Seq<Seq<char>>
    decreases l.len(),
{
    if l.len() == 0 {
        seq![]
    } else {
        match normalize_phone_spec(l.last().value) {
            Some(n) => phone_keys(l.drop_last()).push(n),
            None => phone_keys(l.drop_last()),
        }
    }
}

/// The keys of a card with properties `ps`.
pub open spec fn match_keys_spec(ps: Seq<PropertyView>) -> MatchKeysView {
    MatchKeysView {
        name: opt_lower(display_name_spec(ps)),
        emails: sort_unique(non_empty_only(email_candidates(named(ps, email_word())))),
        phones: sort_unique(phone_keys(named(ps, tel_word()))),
        org: opt_lower(organization_spec(ps)),
    }
}

/// Whether two lists share a string.
pub open spec fn shares(a: Seq<Seq<char>>, b: Seq<Seq<char>>) -> bool {
    exists|i: int, j: int| 0 <= i < a.len() && 0 <= j < b.len() && #[trigger] a[i] == #[trigger] b[j]
}

pub open spec fn has_contact_points_spec(k: MatchKeysView) -> bool {
    k.emails.len() > 0 || k.phones.len() > 0
}

/// Same normalized full name, and a shared email or phone, or, when
/// neither card has any email or phone, the same organization.
pub open spec fn is_match_spec(a: MatchKeysView, b: MatchKeysView) -> bool {
    match (a.name, b.name) {
        (Some(x), Some(y)) => x == y && if !has_contact_points_spec(a) && !has_contact_points_spec(
            b,
        ) {
            a.org.is_some() && a.org == b.org
        } else {
            shares(a.emails, b.emails) || shares(a.phones, b.phones)
        },
        _ => false,
    }
}

fn shares_exec(a: &[String], b: &[String]) -> (r: bool)
    ensures
        r == shares(strings(a@), strings(b@)),
{
    let ghost sa = strings(a@);
    let ghost sb = strings(b@);
    let mut i: usize = 0;
    while i < a.len()
        invariant
            i <= a.len(),
            sa == strings(a@),
            sb == strings(b@),
            forall|x: int, y: int| 0 <= x < i && 0 <= y < sb.len() ==> sa[x] != sb[y],
        decreases a.len() - i,
    {
        let mut j: usize = 0;
        while j < b.len()
            invariant
                i < a.len(),
                j <= b.len(),
                sa == strings(a@),
                sb == strings(b@),
                forall|y: int| 0 <= y < j ==> sa[i as int] != sb[y],
            decreases b.len() - j,
        {
            if a[i] == b[j] {
                assert(sa[i as int] == sb[j as int]);
                return true;
            }
            j += 1;
        }
        i += 1;
    }
    false
}

impl MatchKeys {
    /// Emails and phones are strictly sorted, as a set iterates.
    pub closed spec fn well_formed(&self) -> bool {
        strictly_sorted(strings(self.emails@)) && strictly_sorted(strings(self.phones@))
    }

    /// The keys from their parts: the full name and organization as given,
    /// the set of the emails that are not empty and the set of the phones.
    pub fn from_parts(
        name: Option<String>,
        emails: Vec<String>,
        phones: Vec<String>,
        org: Option<String>,
    ) -> (r: MatchKeys)
        ensures
            r.well_formed(),
            r@.name == super::opt_view(name),
            r@.emails == sort_unique(non_empty_only(strings(emails@))),
            r@.phones == sort_unique(strings(phones@)),
            r@.org == super::opt_view(org),
    {
        let ghost se = strings(emails@);
        let mut kept: Vec<Vec<char>> = Vec::new();
        let mut i: usize = 0;
        while i < emails.len()
            invariant
                i <= emails.len(),
                se == strings(emails@),
                rows(kept@) == non_empty_only(se.take(i as int)),
            decreases emails.len() - i,
        {
            assert(se.take(i + 1).drop_last() == se.take(i as int));
            assert(se.take(i + 1).last() == emails@[i as int]@);
            let e = crate::text::chars_of(emails[i].as_str());
            if e.len() > 0 {
                let ghost before = rows(kept@);
                let ghost ev = e@;
                kept.push(e);
                assert(rows(kept@) =~= before.push(ev));
            }
            i += 1;
        }
        assert(se.take(emails.len() as int) == se);
        let ghost sp = strings(phones@);
        let mut ph: Vec<Vec<char>> = Vec::new();
        let mut k: usize = 0;
        while k < phones.len()
            invariant
                k <= phones.len(),
                sp == strings(phones@),
                rows(ph@) == sp.take(k as int),
            decreases phones.len() - k,
        {
            let ghost before = rows(ph@);
            let p = crate::text::chars_of(phones[k].as_str());
            ph.push(p);
            assert(rows(ph@) =~= before.push(phones@[k as int]@));
            assert(sp.take(k + 1) =~= sp.take(k as int).push(phones@[k as int]@));
            k += 1;
        }
        assert(sp.take(phones.len() as int) == sp);
        let es = super::order::sort_unique_exec(&kept);
        let ps = super::order::sort_unique_exec(&ph);
        proof {
            super::order::lemma_sort_unique(rows(kept@));
            super::order::lemma_sort_unique(rows(ph@));
        }
        MatchKeys {
            name,
            emails: super::parser::strings_of(&es),
            phones: super::parser::strings_of(&ps),
            org,
        }
    }

    /// Same normalized full name AND (a shared email or phone, or, when
    /// neither card has any email or phone, the same ORG).
    pub fn is_match(&self, other: &Self) -> (r: bool)
        ensures
            r == is_match_spec(self@, other@),
    {
        let (name, other_name) = match (&self.name, &other.name) {
            (Some(a), Some(b)) => (a, b),
            _ => {
                return false;
            },
        };
        if !(*name == *other_name) {
            return false;
        }
        if !self.has_contact_points() && !other.has_contact_points() {
            return match (&self.org, &other.org) {
                (Some(a), Some(b)) => *a == *b,
                _ => false,
            };
        }
        shares_exec(self.emails.as_slice(), other.emails.as_slice()) || shares_exec(
            self.phones.as_slice(),
            other.phones.as_slice(),
        )
    }

    fn has_contact_points(&self) -> (r: bool)
        ensures
            r == has_contact_points_spec(self@),
    {
        self.emails.len() > 0 || self.phones.len() > 0
    }

    /// The normalized full name.
    pub fn name(&self) -> (r: Option<&str>)
        ensures
            match (r, self@.name) {
                (Some(a), Some(b)) => a@ == b,
                (None, None) => true,
                _ => false,
            },
    {
        match &self.name {
            Some(n) => Some(n.as_str()),
            None => None,
        }
    }

    /// The set of normalized emails, in order.
    pub fn emails(&self) -> (r: &[String])
        ensures
            strings(r@) == self@.emails,
    {
        self.emails.as_slice()
    }

    /// The set of normalized phone numbers, in order.
    pub fn phones(&self) -> (r: &[String])
        ensures
            strings(r@) == self@.phones,
    {
        self.phones.as_slice()
    }

    /// The normalized organization.
    pub fn org(&self) -> (r: Option<&str>)
        ensures
            match (r, self@.org) {
                (Some(a), Some(b)) => a@ == b,
                (None, None) => true,
                _ => false,
            },
    {
        match &self.org {
            Some(o) => Some(o.as_str()),
            None => None,
        }
    }

    /// `MatchKeys { emails: <count>, phones: <count>, .. }` (the debug
    /// form: counts only).
    pub fn debug_string(&self) -> (r: String)
        ensures
            r@ == "MatchKeys { emails: "@ + crate::text::decimal(self@.emails.len())
                + ", phones: "@ + crate::text::decimal(self@.phones.len()) + ", .. }"@,
    {
        let mut out = String::from_str("MatchKeys { emails: ");
        let e = crate::text::decimal_chars(self.emails.len() as u64);
        out.append(crate::text::string_of(&e).as_str());
        out.append(", phones: ");
        let p = crate::text::decimal_chars(self.phones.len() as u64);
        out.append(crate::text::string_of(&p).as_str());
        out.append(", .. }");
        out
    }
}

fn opt_lower_exec(o: Option<Vec<char>>) -> (r: Option<String>)
    ensures
        super::opt_view(r) == opt_lower(opt_chars(o)),
{
    match o {
        Some(v) => {
            let s = crate::text::string_of(&v);
            Some(crate::text::to_lowercase(s.as_str()))
        },
        None => None,
    }
}

impl VCard {
    /// The keys that recognise this contact on the other side.
    pub fn match_keys(&self) -> (r: MatchKeys)
        ensures
            r.well_formed(),
            r@ == match_keys_spec(self@.properties),
    {
        let ghost ps = self@.properties;
        let name = opt_lower_exec(self.display_name());
        let es = self.properties_named("EMAIL");
        proof {
            reveal_strlit("EMAIL");
            assert("EMAIL"@ =~= email_word());
        }
        let ghost le = ref_views(es@);
        let mut candidates: Vec<String> = Vec::new();
        let mut i: usize = 0;
        while i < es.len()
            invariant
                i <= es.len(),
                le == ref_views(es@),
                strings(candidates@) == email_candidates(le.take(i as int)),
            decreases es.len() - i,
        {
            let v = crate::text::chars_of(es[i].value.as_str());
            let u = super::escape::unescape_chars(&v);
            let t = crate::text::trim_vec(&u);
            let ts = crate::text::string_of(&t);
            let l = crate::text::to_lowercase(ts.as_str());
            let ghost before = strings(candidates@);
            let ghost lv = l@;
            candidates.push(l);
            assert(strings(candidates@) =~= before.push(lv));
            assert(le[i as int] == es[i as int]@);
            assert(email_candidates(le.take(i + 1)) =~= email_candidates(le.take(i as int)).push(
                lv,
            ));
            i += 1;
        }
        assert(le.take(es.len() as int) == le);
        let ts = self.properties_named("TEL");
        proof {
            reveal_strlit("TEL");
            assert("TEL"@ =~= tel_word());
        }
        let ghost lt = ref_views(ts@);
        let mut phones: Vec<String> = Vec::new();
        let mut k: usize = 0;
        while k < ts.len()
            invariant
                k <= ts.len(),
                lt == ref_views(ts@),
                strings(phones@) == phone_keys(lt.take(k as int)),
            decreases ts.len() - k,
        {
            assert(lt.take(k + 1).drop_last() == lt.take(k as int));
            assert(lt.take(k + 1).last() == ts[k as int]@);
            match normalize_phone(ts[k].value.as_str()) {
                Some(n) => {
                    let ghost before = strings(phones@);
                    let ghost nv = n@;
                    phones.push(n);
                    assert(strings(phones@) =~= before.push(nv));
                },
                None => {},
            }
            k += 1;
        }
        assert(lt.take(ts.len() as int) == lt);
        let org = opt_lower_exec(self.organization());
        MatchKeys::from_parts(name, candidates, phones, org)
    }
}

/// Matching is symmetric: whether two cards match does not depend on which
/// side each is on.
pub proof fn lemma_is_match_symmetric(a: MatchKeysView, b: MatchKeysView)
    ensures
        is_match_spec(a, b) == is_match_spec(b, a),
{
    assert(shares(a.emails, b.emails) == shares(b.emails, a.emails)) by {
        if shares(a.emails, b.emails) {
            let (i, j) = choose|i: int, j: int|
                0 <= i < a.emails.len() && 0 <= j < b.emails.len() && #[trigger] a.emails[i]
                    == #[trigger] b.emails[j];
            assert(b.emails[j] == a.emails[i]);
        }
        if shares(b.emails, a.emails) {
            let (i, j) = choose|i: int, j: int|
                0 <= i < b.emails.len() && 0 <= j < a.emails.len() && #[trigger] b.emails[i]
                    == #[trigger] a.emails[j];
            assert(a.emails[j] == b.emails[i]);
        }
    }
    assert(shares(a.phones, b.phones) == shares(b.phones, a.phones)) by {
        if shares(a.phones, b.phones) {
            let (i, j) = choose|i: int, j: int|
                0 <= i < a.phones.len() && 0 <= j < b.phones.len() && #[trigger] a.phones[i]
                    == #[trigger] b.phones[j];
            assert(b.phones[j] == a.phones[i]);
        }
        if shares(b.phones, a.phones) {
            let (i, j) = choose|i: int, j: int|
                0 <= i < b.phones.len() && 0 <= j < a.phones.len() && #[trigger] b.phones[i]
                    == #[trigger] a.phones[j];
            assert(a.phones[j] == b.phones[i]);
        }
    }
}


/// Once either side has an email or a phone number, only a shared email or
/// phone number can make two keys match: the organization no longer counts.
pub proof fn lemma_contact_points_decide(a: MatchKeysView, b: MatchKeysView)
    requires
        a.emails.len() > 0 || a.phones.len() > 0 || b.emails.len() > 0 || b.phones.len() > 0,
        is_match_spec(a, b),
    ensures
        (exists|i: int, j: int|
            0 <= i < a.emails.len() && 0 <= j < b.emails.len() && #[trigger] a.emails[i]
                == #[trigger] b.emails[j]) || (exists|i: int, j: int|
            0 <= i < a.phones.len() && 0 <= j < b.phones.len() && #[trigger] a.phones[i]
                == #[trigger] b.phones[j]),
{
}

/// Two keys match only when both have a name and the names are equal.
pub proof fn lemma_match_needs_same_name(a: MatchKeysView, b: MatchKeysView)
    requires
        is_match_spec(a, b),
    ensures
        a.name is Some,
        a.name == b.name,
{
}

/// The same name and one shared email or phone number are enough for two
/// keys to match, whatever their organizations.
pub proof fn lemma_shared_contact_point_matches(
    a: MatchKeysView,
    b: MatchKeysView,
    x: Seq<char>,
)
    requires
        a.name is Some,
        a.name == b.name,
        (a.emails.contains(x) && b.emails.contains(x)) || (a.phones.contains(x)
            && b.phones.contains(x)),
    ensures
        is_match_spec(a, b),
{
    if a.emails.contains(x) && b.emails.contains(x) {
        let i = choose|i: int| 0 <= i < a.emails.len() && a.emails[i] == x;
        let j = choose|j: int| 0 <= j < b.emails.len() && b.emails[j] == x;
        assert(a.emails[i] == b.emails[j]);
    } else {
        let i = choose|i: int| 0 <= i < a.phones.len() && a.phones[i] == x;
        let j = choose|j: int| 0 <= j < b.phones.len() && b.phones[j] == x;
        assert(a.phones[i] == b.phones[j]);
    }
}

/// When neither side has an email or a phone number, two keys with the same
/// name match exactly when both have an organization and it is the same.
pub proof fn lemma_organization_decides_without_contact_points(
    a: MatchKeysView,
    b: MatchKeysView,
)
    requires
        a.emails.len() == 0,
        a.phones.len() == 0,
        b.emails.len() == 0,
        b.phones.len() == 0,
        a.name is Some,
        a.name == b.name,
    ensures
        is_match_spec(a, b) <==> (a.org is Some && a.org == b.org),
{
}

/// Whether `s` reads as a phone number: a digit, and otherwise only white
/// space and the characters `+ - ( ) .`.
pub open spec fn reads_as_phone_number(s: Seq<char>) -> bool {
    &&& exists|i: int| 0 <= i < s.len() && #[trigger] is_digit(s[i])
    &&& forall|i: int|
        0 <= i < s.len() ==> {
            let c = #[trigger] s[i];
            is_digit(c) || is_space(c) || c == '.' || c == '+' || c == '-' || c == '(' || c == ')'
        }
}

/// A text looks like a contact point exactly when it holds an `@` or reads
/// as a phone number.
pub proof fn lemma_phone_and_email_texts_look_like_contact_points(s: Seq<char>)
    ensures
        looks_like_contact_point_spec(s) <==> (s.contains('@') || reads_as_phone_number(s)),
{
    if !s.contains('@') && reads_as_phone_number(s) {
        assert forall|i: int| 0 <= i < s.len() implies #[trigger] is_phone_char(s[i]) by {
            let c = s[i];
            assert(is_digit(c) || is_space(c) || c == '.' || c == '+' || c == '-' || c == '('
                || c == ')');
        }
    }
    if !s.contains('@') && looks_like_contact_point_spec(s) {
        assert forall|i: int| 0 <= i < s.len() implies {
            let c = #[trigger] s[i];
            is_digit(c) || is_space(c) || c == '.' || c == '+' || c == '-' || c == '(' || c == ')'
        } by {
            assert(is_phone_char(s[i]));
        }
    }
}

/// A card whose first non-empty `FN` neither holds an `@` nor reads as a
/// phone number shows that `FN` as its name.
pub proof fn lemma_plain_name_shown(ps: Seq<PropertyView>, x: Seq<char>)
    requires
        fn_name_from(named(ps, fn_word())) == Some(x),
        !x.contains('@'),
        !reads_as_phone_number(x),
    ensures
        display_name_spec(ps) == Some(x),
{
    lemma_phone_and_email_texts_look_like_contact_points(x);
}

/// The name a card shows is never an email address or a phone number: a
/// contact saved under its number or address shows no name.
pub proof fn lemma_display_name_hides_contact_points(ps: Seq<PropertyView>)
    ensures
        match display_name_spec(ps) {
            Some(x) => !x.contains('@') && !reads_as_phone_number(x),
            None => true,
        },
{
    match display_name_spec(ps) {
        Some(x) => {
            if x.contains('@') || reads_as_phone_number(x) {
                lemma_phone_and_email_texts_look_like_contact_points(x);
            }
        },
        None => {},
    }
}

} // verus!

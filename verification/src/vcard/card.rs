//! The card type: bytes exactly as received plus their parsed view.

use vstd::prelude::*;
use crate::contact::Uid;
use crate::text::{eq_ignore_case, trim};
use super::parser::{
    check_structure, check_structure_spec, first_named, first_named_from, parse_lines,
    parse_lines_from, uid_word,
};
use super::unfold::{unfold, unfold_spec};
use super::{Param, ParamView, Property, PropertyView, VCardError, VCardErrorView, property_views};

verus! {

/// One vCard 3.0 card: the bytes exactly as received plus a parsed view.
/// Equality is byte equality (the parse is a function of the bytes); use
/// `canonical_hash` to ask "meaningfully different?".
#[derive(PartialEq, Eq)]
pub struct VCard {
    pub(crate) raw: Vec<u8>,
    pub(crate) properties: Vec<Property>,
    pub(crate) uid: Uid,
}

pub struct VCardView {
    pub raw: Seq<u8>,
    pub properties: Seq<PropertyView>,
    pub uid: Seq<char>,
}

impl View for VCard {
    type V = VCardView;

    open(crate) spec fn view(&self) -> VCardView {
        VCardView { raw: self.raw@, properties: property_views(self.properties@), uid: self.uid@ }
    }
}

/// The card `raw` parses to: its logical lines parsed in order (the first
/// bad line decides the error), the structure checked, and the UID taken
/// from the first `UID` property, trimmed, which must not be empty.
pub open spec fn parse_card_spec(raw: Seq<u8>) -> Result<VCardView, VCardErrorView> {
    match parse_lines_from(unfold_spec(raw), 0, seq![]) {
        Err(e) => Err(e),
        Ok(ps) => match check_structure_spec(ps) {
            Err(e) => Err(e),
            Ok(_) => match first_named_from(ps, uid_word(), 0) {
                None => Err(VCardErrorView::MissingUid),
                Some(u) => if trim(ps[u].value).len() == 0 {
                    Err(VCardErrorView::MissingUid)
                } else {
                    Ok(VCardView { raw: raw, properties: ps, uid: trim(ps[u].value) })
                },
            },
        },
    }
}

/// The properties of `ps` named `name`, ignoring case and group, in order.
pub open spec fn named(ps: Seq<PropertyView>, name: Seq<char>) -> Seq<PropertyView>
    decreases ps.len(),
{
    if ps.len() == 0 {
        seq![]
    } else if eq_ignore_case(ps.last().name, name) {
        named(ps.drop_last(), name).push(ps.last())
    } else {
        named(ps.drop_last(), name)
    }
}

pub open spec fn ref_views(v: Seq<&Property>) -> Seq<PropertyView> {
    v.map_values(|p: &Property| p@)
}

/// Properties that cover disjoint byte ranges, in order, within `0..bound`.
pub open spec fn ordered_properties(ps: Seq<PropertyView>, bound: int) -> bool {
    &&& forall|k: int| 0 <= k < ps.len() ==> 0 <= #[trigger] ps[k].start <= ps[k].end <= bound
    &&& forall|j: int, k: int| 0 <= j < k < ps.len() ==> #[trigger] ps[j].end <= #[trigger] ps[k].start
}

/// The properties of a card cover disjoint byte ranges of it, in order.
pub proof fn lemma_card_spans(raw: Seq<u8>, v: VCardView)
    requires
        parse_card_spec(raw) == Ok::<VCardView, VCardErrorView>(v),
    ensures
        ordered_properties(v.properties, raw.len() as int),
{
    let lines = unfold_spec(raw);
    super::unfold::lemma_unfold_ordered(raw);
    super::parser::lemma_parse_lines_spans(lines, 0, seq![]);
    let ps = v.properties;
    assert(parse_lines_from(lines, 0, seq![]) is Ok);
    assert(parse_lines_from(lines, 0, seq![])->Ok_0 == ps);
    assert forall|j: int, k: int| 0 <= j < k < ps.len() implies #[trigger] ps[j].end
        <= #[trigger] ps[k].start by {
        assert(ps[j].start == lines[j].start && ps[j].end == lines[j].end);
        assert(ps[k].start == lines[k].start);
        assert(lines[j].end <= lines[k].start);
    }
    assert forall|k: int| 0 <= k < ps.len() implies 0 <= #[trigger] ps[k].start <= ps[k].end
        <= raw.len() by {
        assert(ps[k].start == lines[k].start && ps[k].end == lines[k].end);
        assert(0 <= lines[k].start <= lines[k].end <= raw.len());
    }
}

impl VCard {
    /// A card is exactly what its bytes parse to.
    #[verifier::type_invariant]
    pub(crate) open spec fn well_formed(&self) -> bool {
        parse_card_spec(self.raw@) == Ok::<VCardView, VCardErrorView>(self@)
    }

    /// Parses one vCard 3.0 card, keeping `raw` byte-for-byte.
    pub fn parse(raw: Vec<u8>) -> (r: Result<Self, VCardError>)
        ensures
            match (r, parse_card_spec(raw@)) {
                (Ok(card), Ok(v)) => card@ == v,
                (Err(e), Err(v)) => e@ == v,
                _ => false,
            },
    {
        let lines = unfold(raw.as_slice());
        let properties = match parse_lines(&lines) {
            Err(e) => {
                return Err(e);
            },
            Ok(ps) => ps,
        };
        match check_structure(&properties) {
            Err(e) => {
                return Err(e);
            },
            Ok(_) => {},
        }
        let uid_name = vec!['U', 'I', 'D'];
        let u = match first_named(&properties, &uid_name) {
            None => {
                return Err(VCardError::MissingUid);
            },
            Some(u) => u,
        };
        let value = crate::text::chars_of(properties[u].value.as_str());
        let trimmed = crate::text::trim_vec(&value);
        if trimmed.len() == 0 {
            return Err(VCardError::MissingUid);
        }
        let uid = Uid::new(crate::text::string_of(&trimmed));
        Ok(VCard { raw, properties, uid })
    }

    pub fn uid(&self) -> (r: &Uid)
        ensures
            r@ == self@.uid,
    {
        &self.uid
    }

    pub fn as_bytes(&self) -> (r: &[u8])
        ensures
            r@ == self@.raw,
    {
        self.raw.as_slice()
    }

    pub fn into_bytes(self) -> (r: Vec<u8>)
        ensures
            r@ == self@.raw,
    {
        self.raw
    }

    pub fn properties(&self) -> (r: &[Property])
        ensures
            property_views(r@) == self@.properties,
    {
        self.properties.as_slice()
    }

    /// Properties whose name matches `name`, ignoring case and group.
    pub fn properties_named<'a>(&'a self, name: &str) -> (r: Vec<&'a Property>)
        ensures
            ref_views(r@) == named(self@.properties, name@),
    {
        let wanted = crate::text::chars_of(name);
        let mut r: Vec<&'a Property> = Vec::new();
        let mut i: usize = 0;
        let ghost ps = self@.properties;
        assert(ps.take(0) =~= Seq::<PropertyView>::empty());
        assert(ref_views(r@) =~= Seq::<PropertyView>::empty());
        while i < self.properties.len()
            invariant
                i <= self.properties.len(),
                ps == property_views(self.properties@),
                wanted@ == name@,
                ref_views(r@) == named(ps.take(i as int), name@),
            decreases self.properties.len() - i,
        {
            let p = &self.properties[i];
            assert(ps.take(i + 1).drop_last() == ps.take(i as int));
            assert(ps.take(i + 1).last() == p@);
            if p.is_chars(&wanted) {
                let ghost before = ref_views(r@);
                r.push(p);
                assert(ref_views(r@) =~= before.push(p@));
            }
            i += 1;
        }
        assert(ps.take(self.properties.len() as int) == ps);
        r
    }
}

impl Clone for VCard {
    /// A copy, made by parsing the same bytes again.
    fn clone(&self) -> (r: Self)
        ensures
            r@ == self@,
    {
        proof {
            use_type_invariant(self);
        }
        match VCard::parse(self.raw.clone()) {
            Ok(card) => card,
            Err(_) => {
                vstd::pervasive::unreached()
            },
        }
    }
}

impl Property {
    pub fn group(&self) -> (r: Option<&str>)
        ensures
            match (r, self@.group) {
                (Some(g), Some(v)) => g@ == v,
                (None, None) => true,
                _ => false,
            },
    {
        match &self.group {
            Some(g) => Some(g.as_str()),
            None => None,
        }
    }

    /// The property name as written.
    pub fn name(&self) -> (r: &str)
        ensures
            r@ == self@.name,
    {
        self.name.as_str()
    }

    /// Case-insensitive name comparison.
    pub fn is(&self, name: &str) -> (r: bool)
        ensures
            r == eq_ignore_case(self@.name, name@),
    {
        let wanted = crate::text::chars_of(name);
        self.is_chars(&wanted)
    }

    pub(crate) fn is_chars(&self, name: &[char]) -> (r: bool)
        ensures
            r == eq_ignore_case(self@.name, name@),
    {
        let own = crate::text::chars_of(self.name.as_str());
        crate::text::eq_ignore_case_vec(&own, name)
    }

    pub fn params(&self) -> (r: &[Param])
        ensures
            super::param_views(r@) == self@.params,
    {
        self.params.as_slice()
    }

    /// The value after unfolding, still in escaped form.
    pub fn value(&self) -> (r: &str)
        ensures
            r@ == self@.value,
    {
        self.value.as_str()
    }
}

impl Param {
    /// The parameter name as written.
    pub fn name(&self) -> (r: &str)
        ensures
            r@ == self@.name,
    {
        self.name.as_str()
    }

    /// Case-insensitive name comparison.
    pub fn is(&self, name: &str) -> (r: bool)
        ensures
            r == eq_ignore_case(self@.name, name@),
    {
        let wanted = crate::text::chars_of(name);
        let own = crate::text::chars_of(self.name.as_str());
        crate::text::eq_ignore_case_vec(&own, &wanted)
    }

    pub fn values(&self) -> (r: &[String])
        ensures
            crate::text::strings(r@) == self@.values,
    {
        self.values.as_slice()
    }
}


/// `Some("<debug text>")` or `None`, as an optional string's debug form.
pub open spec fn opt_debug(o: Option<Seq<char>>) -> Seq<char> {
    match o {
        Some(s) => "Some("@ + crate::text::debug_text(s) + ")"@,
        None => "None"@,
    }
}

impl Property {
    /// The byte range of the property in the card's bytes: every physical
    /// line, folds included, and the trailing line break.
    pub fn span(&self) -> (r: (usize, usize))
        ensures
            r.0 == self@.start,
            r.1 == self@.end,
    {
        (self.start, self.end)
    }

    /// The 1-based physical line number where the property starts.
    pub fn line(&self) -> (r: usize)
        ensures
            r == self@.line,
    {
        self.line
    }

    /// `Property { group: .., name: .., params: <count>, value_len: <bytes>, .. }`:
    /// the debug form, which leaves parameter values and the value out.
    pub fn debug_string(&self) -> (r: String)
        ensures
            r@ == "Property { group: "@ + opt_debug(self@.group) + ", name: "@
                + crate::text::debug_text(self@.name) + ", params: "@ + crate::text::decimal(
                self@.params.len(),
            ) + ", value_len: "@ + crate::text::decimal(
                vstd::utf8::encode_utf8(self@.value).len(),
            ) + ", .. }"@,
    {
        let mut out = String::from_str("Property { group: ");
        let group = match &self.group {
            Some(g) => {
                let mut t = String::from_str("Some(");
                t.append(crate::text::str_debug(g.as_str()).as_str());
                t.append(")");
                t
            },
            None => String::from_str("None"),
        };
        out.append(group.as_str());
        out.append(", name: ");
        out.append(crate::text::str_debug(self.name.as_str()).as_str());
        out.append(", params: ");
        let n = crate::text::decimal_chars(self.params.len() as u64);
        out.append(crate::text::string_of(&n).as_str());
        out.append(", value_len: ");
        let v = crate::text::decimal_chars(self.value.as_str().as_bytes().len() as u64);
        out.append(crate::text::string_of(&v).as_str());
        out.append(", .. }");
        out
    }
}

impl Param {
    /// `Param { name: .., values: <count> }`: the debug form, which leaves
    /// the values out.
    pub fn debug_string(&self) -> (r: String)
        ensures
            r@ == "Param { name: "@ + crate::text::debug_text(self@.name) + ", values: "@
                + crate::text::decimal(self@.values.len()) + " }"@,
    {
        let mut out = String::from_str("Param { name: ");
        out.append(crate::text::str_debug(self.name.as_str()).as_str());
        out.append(", values: ");
        let n = crate::text::decimal_chars(self.values.len() as u64);
        out.append(crate::text::string_of(&n).as_str());
        out.append(" }");
        out
    }
}

impl VCard {
    /// `VCard { uid: Uid(..), properties: <count>, bytes: <count> }`: the
    /// debug form, which shows the UID and counts only.
    pub fn debug_string(&self) -> (r: String)
        ensures
            r@ == "VCard { uid: Uid("@ + crate::text::debug_text(self@.uid) + "), properties: "@
                + crate::text::decimal(self@.properties.len()) + ", bytes: "@
                + crate::text::decimal(self@.raw.len()) + " }"@,
    {
        let mut out = String::from_str("VCard { uid: Uid(");
        out.append(crate::text::str_debug(self.uid.as_str()).as_str());
        out.append("), properties: ");
        let n = crate::text::decimal_chars(self.properties.len() as u64);
        out.append(crate::text::string_of(&n).as_str());
        out.append(", bytes: ");
        let b = crate::text::decimal_chars(self.raw.len() as u64);
        out.append(crate::text::string_of(&b).as_str());
        out.append(" }");
        out
    }
}

} // verus!

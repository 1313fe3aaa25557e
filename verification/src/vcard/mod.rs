//! vCard 3.0 cards kept verbatim, with a lossless parse for inspection.
//!
//! Nothing in this module puts property values into debug output or error
//! messages: only the UID, property names, counts and line numbers.

pub mod canonical;
pub mod card;
pub mod escape;
pub mod identity;
pub mod layout;
pub mod order;
pub mod parser;
pub mod photo;
pub mod regroup;
pub mod removal;
pub mod reorder;
pub mod unfold;

use vstd::prelude::*;

pub use canonical::{CardHash, HashOptions, CANONICAL_VERSION};
pub use card::{VCard, VCardView};

verus! {

/// One property parameter. Values have surrounding quotes removed and comma
/// lists split; a bare parameter (`TEL;HOME:`) is recorded as `TYPE=HOME`.
#[derive(Clone, PartialEq, Eq)]
pub struct Param {
    pub(crate) name: String,
    pub(crate) values: Vec<String>,
}

pub struct ParamView {
    pub name: Seq<char>,
    pub values: Seq<Seq<char>>,
}

impl View for Param {
    type V = ParamView;

    open(crate) spec fn view(&self) -> ParamView {
        ParamView { name: self.name@, values: crate::text::strings(self.values@) }
    }
}

pub open spec fn param_views(v: Seq<Param>) -> Seq<ParamView> {
    v.map_values(|p: Param| p@)
}

/// One unfolded content line: `[group.]name *(;param):value`.
#[derive(Clone, PartialEq, Eq)]
pub struct Property {
    /// Byte range in the card's raw bytes, covering every physical line
    /// (folds included) and the trailing line break.
    pub(crate) start: usize,
    pub(crate) end: usize,
    /// 1-based physical line number where the property starts.
    pub(crate) line: usize,
    pub(crate) group: Option<String>,
    pub(crate) name: String,
    pub(crate) params: Vec<Param>,
    pub(crate) value: String,
}

pub struct PropertyView {
    pub start: int,
    pub end: int,
    pub line: int,
    pub group: Option<Seq<char>>,
    pub name: Seq<char>,
    pub params: Seq<ParamView>,
    pub value: Seq<char>,
}

pub open spec fn opt_view(o: Option<String>) -> Option<Seq<char>> {
    match o {
        Some(s) => Some(s@),
        None => None,
    }
}

impl View for Property {
    type V = PropertyView;

    open(crate) spec fn view(&self) -> PropertyView {
        PropertyView {
            start: self.start as int,
            end: self.end as int,
            line: self.line as int,
            group: opt_view(self.group),
            name: self.name@,
            params: param_views(self.params@),
            value: self.value@,
        }
    }
}

pub open spec fn property_views(v: Seq<Property>) -> Seq<PropertyView> {
    v.map_values(|p: Property| p@)
}

/// Why a card could not be parsed. Messages carry line numbers only, never
/// card content.
#[derive(Debug, Clone, PartialEq, Eq)]
pub enum VCardError {
    InvalidUtf8 { line: usize },
    MalformedLine { line: usize },
    MissingBegin,
    MissingEnd,
    MultipleCards,
    TrailingContent { line: usize },
    MissingVersion,
    UnsupportedVersion { version: String },
    MissingUid,
}

pub enum VCardErrorView {
    InvalidUtf8 { line: int },
    MalformedLine { line: int },
    MissingBegin,
    MissingEnd,
    MultipleCards,
    TrailingContent { line: int },
    MissingVersion,
    UnsupportedVersion { version: Seq<char> },
    MissingUid,
}

impl View for VCardError {
    type V = VCardErrorView;

    open spec fn view(&self) -> VCardErrorView {
        match self {
            VCardError::InvalidUtf8 { line } => VCardErrorView::InvalidUtf8 { line: *line as int },
            VCardError::MalformedLine { line } => VCardErrorView::MalformedLine { line: *line as int },
            VCardError::MissingBegin => VCardErrorView::MissingBegin,
            VCardError::MissingEnd => VCardErrorView::MissingEnd,
            VCardError::MultipleCards => VCardErrorView::MultipleCards,
            VCardError::TrailingContent { line } => VCardErrorView::TrailingContent {
                line: *line as int,
            },
            VCardError::MissingVersion => VCardErrorView::MissingVersion,
            VCardError::UnsupportedVersion { version } => VCardErrorView::UnsupportedVersion {
                version: version@,
            },
            VCardError::MissingUid => VCardErrorView::MissingUid,
        }
    }
}

/// The message of a parse error: line numbers only, never card content.
pub open spec fn error_message(e: VCardErrorView) -> Seq<char> {
    match e {
        VCardErrorView::InvalidUtf8 { line } => "vCard line "@ + crate::text::decimal(line as nat)
            + " is not valid UTF-8"@,
        VCardErrorView::MalformedLine { line } => "vCard line "@ + crate::text::decimal(line as nat)
            + " is malformed"@,
        VCardErrorView::MissingBegin => "vCard does not start with BEGIN:VCARD"@,
        VCardErrorView::MissingEnd => "vCard has no END:VCARD"@,
        VCardErrorView::MultipleCards => "input contains more than one vCard"@,
        VCardErrorView::TrailingContent { line } => "vCard has content after END:VCARD at line "@
            + crate::text::decimal(line as nat),
        VCardErrorView::MissingVersion => "vCard has no VERSION"@,
        VCardErrorView::UnsupportedVersion { version } => "unsupported vCard version "@ + version,
        VCardErrorView::MissingUid => "vCard has no UID"@,
    }
}

/// `prefix`, the decimal form of `n`, then `suffix`.
fn with_number(prefix: &str, n: usize, suffix: &str) -> (r: String)
    ensures
        r@ == prefix@ + crate::text::decimal(n as nat) + suffix@,
{
    let mut out = crate::text::chars_of(prefix);
    let digits = crate::text::decimal_chars(n as u64);
    crate::text::append_chars(&mut out, &digits);
    let tail = crate::text::chars_of(suffix);
    crate::text::append_chars(&mut out, &tail);
    crate::text::string_of(&out)
}

impl VCardError {
    /// The error's message (its `Display` form).
    pub fn to_string(&self) -> (r: String)
        ensures
            r@ == error_message(self@),
    {
        match self {
            VCardError::InvalidUtf8 { line } => {
                let m = with_number("vCard line ", *line, " is not valid UTF-8");
                assert(self@ == VCardErrorView::InvalidUtf8 { line: *line as int });
                assert(m@ == "vCard line "@ + crate::text::decimal(*line as nat) + " is not valid UTF-8"@);
                m
            },
            VCardError::MalformedLine { line } => with_number("vCard line ", *line, " is malformed"),
            VCardError::MissingBegin => String::from_str("vCard does not start with BEGIN:VCARD"),
            VCardError::MissingEnd => String::from_str("vCard has no END:VCARD"),
            VCardError::MultipleCards => String::from_str("input contains more than one vCard"),
            VCardError::TrailingContent { line } => {
                let m = with_number("vCard has content after END:VCARD at line ", *line, "");
                proof {
                    reveal_strlit("");
                    assert(m@ =~= "vCard has content after END:VCARD at line "@ + crate::text::decimal(*line as nat));
                }
                m
            },
            VCardError::MissingVersion => String::from_str("vCard has no VERSION"),
            VCardError::UnsupportedVersion { version } => {
                let mut m = String::from_str("unsupported vCard version ");
                m.append(version.as_str());
                m
            },
            VCardError::MissingUid => String::from_str("vCard has no UID"),
        }
    }
}

} // verus!

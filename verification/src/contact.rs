//! Identifiers shared by both sides, and the two sides themselves.

use vstd::prelude::*;

verus! {

/// A vCard `UID`: the key that correlates one contact across both sides.
/// Not PII: it may be logged.
#[derive(Debug, Clone, PartialEq, Eq, Hash, PartialOrd, Ord)]
pub struct Uid(pub(crate) String);

impl View for Uid {
    type V = Seq<char>;

    open(crate) spec fn view(&self) -> Seq<char> {
        self.0@
    }
}

impl Uid {
    pub fn new(value: String) -> (r: Self)
        ensures
            r@ == value@,
    {
        Uid(value)
    }

    pub fn as_str(&self) -> (r: &str)
        ensures
            r@ == self@,
    {
        self.0.as_str()
    }

    pub fn into_string(self) -> (r: String)
        ensures
            r@ == self@,
    {
        self.0
    }

    /// The identifier as written (its `Display` form).
    pub fn to_string(&self) -> (r: String)
        ensures
            r@ == self@,
    {
        self.0.clone()
    }

    /// An identifier equal to this one.
    pub fn copy(&self) -> (r: Self)
        ensures
            r@ == self@,
    {
        Uid(self.0.clone())
    }

    /// Whether both identifiers hold the same text.
    pub fn same(&self, other: &Self) -> (r: bool)
        ensures
            r == (self@ == other@),
    {
        self.0 == other.0
    }
}

impl From<String> for Uid {
    fn from(value: String) -> (r: Self) {
        Uid(value)
    }
}

impl vstd::std_specs::convert::FromSpecImpl<String> for Uid {
    open spec fn obeys_from_spec() -> bool {
        true
    }

    closed spec fn from_spec(v: String) -> Self {
        Uid(v)
    }
}

impl From<&str> for Uid {
    fn from(value: &str) -> (r: Self) {
        Uid(value.to_owned())
    }
}

impl vstd::std_specs::convert::FromSpecImpl<&str> for Uid {
    open spec fn obeys_from_spec() -> bool {
        false
    }

    closed spec fn from_spec(v: &str) -> Self {
        vstd::pervasive::arbitrary()
    }
}

/// Path of one card resource on its server, as returned by the server.
#[derive(Debug, Clone, PartialEq, Eq, Hash, PartialOrd, Ord)]
pub struct Href(pub(crate) String);

impl View for Href {
    type V = Seq<char>;

    open(crate) spec fn view(&self) -> Seq<char> {
        self.0@
    }
}

impl Href {
    pub fn new(value: String) -> (r: Self)
        ensures
            r@ == value@,
    {
        Href(value)
    }

    pub fn as_str(&self) -> (r: &str)
        ensures
            r@ == self@,
    {
        self.0.as_str()
    }

    pub fn into_string(self) -> (r: String)
        ensures
            r@ == self@,
    {
        self.0
    }

    /// The identifier as written (its `Display` form).
    pub fn to_string(&self) -> (r: String)
        ensures
            r@ == self@,
    {
        self.0.clone()
    }

    /// An identifier equal to this one.
    pub fn copy(&self) -> (r: Self)
        ensures
            r@ == self@,
    {
        Href(self.0.clone())
    }

    /// Whether both identifiers hold the same text.
    pub fn same(&self, other: &Self) -> (r: bool)
        ensures
            r == (self@ == other@),
    {
        self.0 == other.0
    }
}

impl From<String> for Href {
    fn from(value: String) -> (r: Self) {
        Href(value)
    }
}

impl vstd::std_specs::convert::FromSpecImpl<String> for Href {
    open spec fn obeys_from_spec() -> bool {
        true
    }

    closed spec fn from_spec(v: String) -> Self {
        Href(v)
    }
}

impl From<&str> for Href {
    fn from(value: &str) -> (r: Self) {
        Href(value.to_owned())
    }
}

impl vstd::std_specs::convert::FromSpecImpl<&str> for Href {
    open spec fn obeys_from_spec() -> bool {
        false
    }

    closed spec fn from_spec(v: &str) -> Self {
        vstd::pervasive::arbitrary()
    }
}

/// Opaque entity tag, stored exactly as the server sent it.
#[derive(Debug, Clone, PartialEq, Eq, Hash, PartialOrd, Ord)]
pub struct ETag(pub(crate) String);

impl View for ETag {
    type V = Seq<char>;

    open(crate) spec fn view(&self) -> Seq<char> {
        self.0@
    }
}

impl ETag {
    pub fn new(value: String) -> (r: Self)
        ensures
            r@ == value@,
    {
        ETag(value)
    }

    pub fn as_str(&self) -> (r: &str)
        ensures
            r@ == self@,
    {
        self.0.as_str()
    }

    pub fn into_string(self) -> (r: String)
        ensures
            r@ == self@,
    {
        self.0
    }

    /// The identifier as written (its `Display` form).
    pub fn to_string(&self) -> (r: String)
        ensures
            r@ == self@,
    {
        self.0.clone()
    }

    /// An identifier equal to this one.
    pub fn copy(&self) -> (r: Self)
        ensures
            r@ == self@,
    {
        ETag(self.0.clone())
    }

    /// Whether both identifiers hold the same text.
    pub fn same(&self, other: &Self) -> (r: bool)
        ensures
            r == (self@ == other@),
    {
        self.0 == other.0
    }
}

impl From<String> for ETag {
    fn from(value: String) -> (r: Self) {
        ETag(value)
    }
}

impl vstd::std_specs::convert::FromSpecImpl<String> for ETag {
    open spec fn obeys_from_spec() -> bool {
        true
    }

    closed spec fn from_spec(v: String) -> Self {
        ETag(v)
    }
}

impl From<&str> for ETag {
    fn from(value: &str) -> (r: Self) {
        ETag(value.to_owned())
    }
}

impl vstd::std_specs::convert::FromSpecImpl<&str> for ETag {
    open spec fn obeys_from_spec() -> bool {
        false
    }

    closed spec fn from_spec(v: &str) -> Self {
        vstd::pervasive::arbitrary()
    }
}

/// Opaque RFC 6578 sync token, stored and replayed exactly as the server
/// sent it. Not PII.
#[derive(Debug, Clone, PartialEq, Eq, Hash, PartialOrd, Ord)]
pub struct SyncToken(pub(crate) String);

impl View for SyncToken {
    type V = Seq<char>;

    open(crate) spec fn view(&self) -> Seq<char> {
        self.0@
    }
}

impl SyncToken {
    pub fn new(value: String) -> (r: Self)
        ensures
            r@ == value@,
    {
        SyncToken(value)
    }

    pub fn as_str(&self) -> (r: &str)
        ensures
            r@ == self@,
    {
        self.0.as_str()
    }

    pub fn into_string(self) -> (r: String)
        ensures
            r@ == self@,
    {
        self.0
    }

    /// The identifier as written (its `Display` form).
    pub fn to_string(&self) -> (r: String)
        ensures
            r@ == self@,
    {
        self.0.clone()
    }

    /// An identifier equal to this one.
    pub fn copy(&self) -> (r: Self)
        ensures
            r@ == self@,
    {
        SyncToken(self.0.clone())
    }

    /// Whether both identifiers hold the same text.
    pub fn same(&self, other: &Self) -> (r: bool)
        ensures
            r == (self@ == other@),
    {
        self.0 == other.0
    }
}

impl From<String> for SyncToken {
    fn from(value: String) -> (r: Self) {
        SyncToken(value)
    }
}

impl vstd::std_specs::convert::FromSpecImpl<String> for SyncToken {
    open spec fn obeys_from_spec() -> bool {
        true
    }

    closed spec fn from_spec(v: String) -> Self {
        SyncToken(v)
    }
}

impl From<&str> for SyncToken {
    fn from(value: &str) -> (r: Self) {
        SyncToken(value.to_owned())
    }
}

impl vstd::std_specs::convert::FromSpecImpl<&str> for SyncToken {
    open spec fn obeys_from_spec() -> bool {
        false
    }

    closed spec fn from_spec(v: &str) -> Self {
        vstd::pervasive::arbitrary()
    }
}

/// One of the two CardDAV endpoints.
#[derive(Debug, Clone, Copy, PartialEq, Eq, Hash, Structural)]
pub enum Side {
    ICloud,
    Fastmail,
}

/// Which side wins when a card changed on both sides since the last sync.
pub type ConflictWinner = Side;

/// The lower-case name of a side.
pub open spec fn side_name(side: Side) -> Seq<char> {
    match side {
        Side::ICloud => "icloud"@,
        Side::Fastmail => "fastmail"@,
    }
}

/// The side that is not `side`.
pub open spec fn other_side(side: Side) -> Side {
    match side {
        Side::ICloud => Side::Fastmail,
        Side::Fastmail => Side::ICloud,
    }
}

/// The text a side is parsed from: its name in any ASCII case.
pub open spec fn parse_side_spec(s: Seq<char>) -> Option<Side> {
    if crate::text::lower_seq(s) == side_name(Side::ICloud) {
        Some(Side::ICloud)
    } else if crate::text::lower_seq(s) == side_name(Side::Fastmail) {
        Some(Side::Fastmail)
    } else {
        None
    }
}

impl Side {
    /// The other side.
    pub fn other(self) -> (r: Self)
        ensures
            r == other_side(self),
    {
        match self {
            Side::ICloud => Side::Fastmail,
            Side::Fastmail => Side::ICloud,
        }
    }

    pub fn as_str(self) -> (r: &'static str)
        ensures
            r@ == side_name(self),
    {
        match self {
            Side::ICloud => "icloud",
            Side::Fastmail => "fastmail",
        }
    }

    /// The side's name (its `Display` form).
    pub fn to_string(self) -> (r: String)
        ensures
            r@ == side_name(self),
    {
        self.as_str().to_owned()
    }

    /// Parses a side name, ignoring ASCII case.
    pub fn parse(s: &str) -> (r: Result<Side, String>)
        ensures
            match r {
                Ok(side) => parse_side_spec(s@) == Some(side),
                Err(m) => parse_side_spec(s@) is None && m@ == "expected `icloud` or `fastmail`, got `"@ + s@ + "`"@,
            },
    {
        let lower = crate::text::lower_vec(&crate::text::chars_of(s));
        let icloud = crate::text::chars_of("icloud");
        let fastmail = crate::text::chars_of("fastmail");
        if crate::text::chars_eq(&lower, &icloud) {
            Ok(Side::ICloud)
        } else if crate::text::chars_eq(&lower, &fastmail) {
            Ok(Side::Fastmail)
        } else {
            let mut m = String::from_str("expected `icloud` or `fastmail`, got `");
            m.append(s);
            m.append("`");
            Err(m)
        }
    }
}

impl std::str::FromStr for Side {
    type Err = String;

    fn from_str(s: &str) -> (r: Result<Self, Self::Err>)
        ensures
            match r {
                Ok(side) => parse_side_spec(s@) == Some(side),
                Err(m) => parse_side_spec(s@) is None && m@ == "expected `icloud` or `fastmail`, got `"@ + s@ + "`"@,
            },
    {
        Side::parse(s)
    }
}

/// Naming a side and parsing the name gives the side back, in any ASCII case.
pub proof fn lemma_side_name_round_trip(side: Side)
    ensures
        parse_side_spec(side_name(side)) == Some(side),
        parse_side_spec(crate::text::upper_seq(side_name(side))) == Some(side),
{
    reveal_strlit("icloud");
    reveal_strlit("fastmail");
    assert(crate::text::lower_seq(side_name(Side::ICloud)) =~= side_name(Side::ICloud));
    assert(crate::text::lower_seq(side_name(Side::Fastmail)) =~= side_name(Side::Fastmail));
    assert(crate::text::lower_seq(crate::text::upper_seq(side_name(Side::ICloud))) =~= side_name(Side::ICloud));
    assert(crate::text::lower_seq(crate::text::upper_seq(side_name(Side::Fastmail))) =~= side_name(Side::Fastmail));
    assert(crate::text::lower_seq(side_name(Side::Fastmail)) != side_name(Side::ICloud));
    assert(crate::text::lower_seq(crate::text::upper_seq(side_name(Side::Fastmail))) != side_name(Side::ICloud));
}

/// The other side differs, and taking the other side twice gives the side
/// back.
pub proof fn lemma_other_involutive(side: Side)
    ensures
        other_side(side) != side,
        other_side(other_side(side)) == side,
{
}

} // verus!

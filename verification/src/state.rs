//! Sync state rules: spans and instants of time, capped exponential backoff
//! for failing cards, and the categories a failure is recorded under.

use vstd::prelude::*;
use crate::contact::{parse_side_spec, ETag, Href, Side, Uid};
use crate::error::{AddressBookError, Error, RepositoryError};
use crate::text::decimal;
use crate::vcard::VCardError;

verus! {

// ---------------------------------------------------------------------------
// Spans of time
// ---------------------------------------------------------------------------

/// The largest whole number of seconds a span can be built from.
pub const MAX_SPAN_SECS: i64 = 9_223_372_036_854_775;

/// A signed span of time (`chrono::TimeDelta`): whole seconds plus
/// nanoseconds in `0..1_000_000_000`. Its value is their sum.
#[derive(Debug, Copy, PartialEq, Eq, Structural)]
pub struct Span {
    pub(crate) secs: i64,
    pub(crate) nanos: u32,
}

impl Clone for Span {
    fn clone(&self) -> (r: Self)
        ensures
            r == *self,
    {
        *self
    }
}

impl View for Span {
    type V = int;

    /// The span in nanoseconds.
    open(crate) spec fn view(&self) -> int {
        self.secs * 1_000_000_000 + self.nanos
    }
}

/// Whether doubling a span of `d` nanoseconds leaves whole seconds that
/// reach `i64::MIN` or `i64::MAX`.
pub open spec fn double_overflows(d: int) -> bool {
    2 * d >= (i64::MAX as int) * 1_000_000_000 || 2 * d < (i64::MIN as int + 1) * 1_000_000_000
}

impl Span {
    #[verifier::type_invariant]
    pub(crate) closed spec fn normalized(&self) -> bool {
        self.nanos < 1_000_000_000
    }

    /// The span of `seconds` whole seconds.
    pub fn seconds(seconds: i64) -> (r: Span)
        requires
            -MAX_SPAN_SECS <= seconds <= MAX_SPAN_SECS,
        ensures
            r@ == seconds * 1_000_000_000,
    {
        Span { secs: seconds, nanos: 0 }
    }

    /// The whole seconds of the span, rounded toward zero.
    pub fn num_seconds(&self) -> (r: i64)
        ensures
            r == (if self@ >= 0 {
                self@ / 1_000_000_000
            } else {
                -((-self@) / 1_000_000_000)
            }),
    {
        proof {
            use_type_invariant(self);
        }
        if self.secs < 0 && self.nanos > 0 {
            self.secs + 1
        } else {
            self.secs
        }
    }

    /// `self < other`.
    pub fn lt(&self, other: &Span) -> (r: bool)
        ensures
            r == (self@ < other@),
    {
        proof {
            use_type_invariant(self);
            use_type_invariant(other);
        }
        self.secs < other.secs || (self.secs == other.secs && self.nanos < other.nanos)
    }

    /// The smaller of two spans (`Ord::min`: `self` when they are equal).
    pub fn min(self, other: Span) -> (r: Span)
        ensures
            r@ == (if self@ <= other@ {
                self@
            } else {
                other@
            }),
    {
        if other.lt(&self) {
            other
        } else {
            self
        }
    }

    /// Twice the span (`TimeDelta::checked_mul(2)`): `None` when the whole
    /// seconds of the result reach `i64::MIN` or `i64::MAX`.
    pub fn checked_double(&self) -> (r: Option<Span>)
        ensures
            match r {
                Some(d) => d@ == 2 * self@ && !double_overflows(self@),
                None => double_overflows(self@),
            },
    {
        proof {
            use_type_invariant(self);
        }
        let twice: u64 = (self.nanos as u64) * 2;
        let carry: u64 = twice / 1_000_000_000;
        let nanos: u32 = (twice % 1_000_000_000) as u32;
        let secs: i128 = (self.secs as i128) * 2 + (carry as i128);
        if secs <= (i64::MIN as i128) || secs >= (i64::MAX as i128) {
            return None;
        }
        Some(Span { secs: secs as i64, nanos })
    }
}

// ---------------------------------------------------------------------------
// Instants
// ---------------------------------------------------------------------------

/// The first second of the earliest instant `chrono` represents
/// (-262143-01-01T00:00:00Z), in seconds since the Unix epoch.
pub const MIN_INSTANT_SECS: i64 = -8_334_601_315_200;

/// The last second of the latest instant `chrono` represents
/// (+262142-12-31T23:59:59.999999999Z), in seconds since the Unix epoch.
pub const MAX_INSTANT_SECS: i64 = 8_210_266_876_799;

/// Whether `t` nanoseconds after the Unix epoch is a representable instant.
pub open spec fn is_instant(t: int) -> bool {
    MIN_INSTANT_SECS * 1_000_000_000 <= t < (MAX_INSTANT_SECS + 1) * 1_000_000_000
}

/// An instant (`chrono::DateTime<Utc>`): the span since the Unix epoch,
/// within the years -262143 to 262142.
#[derive(Debug, Copy, PartialEq, Eq, Structural)]
pub struct Timestamp {
    pub(crate) since_epoch: Span,
}

impl Clone for Timestamp {
    fn clone(&self) -> (r: Self)
        ensures
            r == *self,
    {
        *self
    }
}

impl View for Timestamp {
    type V = int;

    /// Nanoseconds since the Unix epoch.
    open(crate) spec fn view(&self) -> int {
        self.since_epoch@
    }
}

/// Whether `t + d` is a representable instant (adding past either end
/// panics).
pub open spec fn fits_instant(t: int, d: int) -> bool {
    is_instant(t + d)
}

impl Timestamp {
    /// Every timestamp is a representable instant.
    #[verifier::type_invariant]
    pub(crate) open spec fn well_formed(&self) -> bool {
        is_instant(self@)
    }

    /// The instant `seconds` whole seconds after the Unix epoch.
    pub fn from_unix_seconds(seconds: i64) -> (r: Timestamp)
        requires
            MIN_INSTANT_SECS <= seconds <= MAX_INSTANT_SECS,
        ensures
            r@ == seconds * 1_000_000_000,
    {
        Timestamp { since_epoch: Span { secs: seconds, nanos: 0 } }
    }

    /// Whole seconds since the Unix epoch, rounded down.
    pub fn unix_seconds(&self) -> (r: i64)
        ensures
            r as int == self@ / 1_000_000_000,
    {
        proof {
            use_type_invariant(&self.since_epoch);
        }
        self.since_epoch.secs
    }

    /// The instant `d` after this one.
    pub fn plus(&self, d: Span) -> (r: Timestamp)
        requires
            fits_instant(self@, d@),
        ensures
            r@ == self@ + d@,
    {
        let a = self.since_epoch;
        proof {
            use_type_invariant(&a);
            use_type_invariant(&d);
        }
        let n: u32 = a.nanos + d.nanos;
        let carry: i128 = if n >= 1_000_000_000 {
            1
        } else {
            0
        };
        let nanos: u32 = if n >= 1_000_000_000 {
            n - 1_000_000_000
        } else {
            n
        };
        let secs: i128 = (a.secs as i128) + (d.secs as i128) + carry;
        Timestamp { since_epoch: Span { secs: secs as i64, nanos } }
    }

    /// `self >= other`.
    pub fn at_or_after(&self, other: &Timestamp) -> (r: bool)
        ensures
            r == (self@ >= other@),
    {
        !self.since_epoch.lt(&other.since_epoch)
    }
}

// ---------------------------------------------------------------------------
// Backoff
// ---------------------------------------------------------------------------

/// Capped exponential backoff for a failing card: `base` after the first
/// failure, doubling per further failure, never more than `cap`. There is no
/// give-up state: a failure is retried until it clears.
#[derive(Debug, Copy, PartialEq, Eq, Structural)]
pub struct BackoffPolicy {
    pub base: Span,
    pub cap: Span,
}

impl Clone for BackoffPolicy {
    fn clone(&self) -> (r: Self)
        ensures
            r == *self,
    {
        *self
    }
}

/// Doubling `d` once more while the double stays below `cap`, `k` times;
/// the cap as soon as a double does not (or does not fit).
pub open spec fn backoff_from(d: int, cap: int, k: nat) -> int
    decreases k,
{
    if k == 0 {
        if d <= cap {
            d
        } else {
            cap
        }
    } else if double_overflows(d) || 2 * d >= cap {
        cap
    } else {
        backoff_from(2 * d, cap, (k - 1) as nat)
    }
}

/// The wait before the next retry after `attempts` consecutive failures.
pub open spec fn delay_spec(base: int, cap: int, attempts: nat) -> int {
    backoff_from(base, cap, if attempts >= 1 {
        (attempts - 1) as nat
    } else {
        0
    })
}

impl BackoffPolicy {
    /// The wait before the next retry after `attempts` consecutive failures
    /// (1 = the first failure).
    pub fn delay(&self, attempts: u32) -> (r: Span)
        ensures
            r@ == delay_spec(self.base@, self.cap@, attempts as nat),
    {
        let mut delay = self.base;
        let mut i: u32 = 1;
        while i < attempts
            invariant
                1 <= i,
                i <= attempts || attempts == 0,
                backoff_from(
                    delay@,
                    self.cap@,
                    (if attempts >= i {
                        attempts - i
                    } else {
                        0
                    }) as nat,
                ) == delay_spec(
                    self.base@,
                    self.cap@,
                    attempts as nat,
                ),
            decreases attempts - i,
        {
            match delay.checked_double() {
                Some(doubled) => {
                    if doubled.lt(&self.cap) {
                        delay = doubled;
                    } else {
                        return self.cap;
                    }
                },
                None => {
                    return self.cap;
                },
            }
            i += 1;
        }
        delay.min(self.cap)
    }
}

/// `base * 2^k`.
pub open spec fn doubled(base: int, k: nat) -> int
    decreases k,
{
    if k == 0 {
        base
    } else {
        2 * doubled(base, (k - 1) as nat)
    }
}

proof fn lemma_doubled_monotone(base: int, k: nat)
    requires
        base >= 0,
    ensures
        doubled(base, k) >= base,
        doubled(base, k + 1) == 2 * doubled(base, k),
    decreases k,
{
    if k > 0 {
        lemma_doubled_monotone(base, (k - 1) as nat);
    }
}

proof fn lemma_backoff_from(d: int, cap: int, k: nat)
    requires
        d >= 0,
        cap < (i64::MAX as int) * 1_000_000_000,
    ensures
        backoff_from(d, cap, k) == (if doubled(d, k) <= cap {
            doubled(d, k)
        } else {
            cap
        }),
    decreases k,
{
    if k > 0 {
        lemma_doubled_monotone(d, (k - 1) as nat);
        lemma_doubled_shift(d, (k - 1) as nat);
        if 2 * d >= (i64::MAX as int) * 1_000_000_000 || 2 * d >= cap {
            lemma_doubled_monotone(2 * d, (k - 1) as nat);
        } else {
            lemma_backoff_from(2 * d, cap, (k - 1) as nat);
        }
    }
}

proof fn lemma_doubled_shift(d: int, k: nat)
    ensures
        doubled(2 * d, k) == doubled(d, k + 1),
    decreases k,
{
    if k > 0 {
        lemma_doubled_shift(d, (k - 1) as nat);
        assert(doubled(2 * d, k) == 2 * doubled(2 * d, (k - 1) as nat));
        assert(doubled(d, k + 1) == 2 * doubled(d, k));
    } else {
        assert(doubled(d, 1) == 2 * doubled(d, 0));
    }
}

/// For a base that is not negative and a cap that fits, the delay after `n`
/// failures is `base * 2^(n-1)`, never more than `cap`.
pub proof fn lemma_backoff_closed_form(policy: BackoffPolicy, attempts: nat)
    requires
        policy.base@ >= 0,
        policy.cap@ < (i64::MAX as int) * 1_000_000_000,
        attempts >= 1,
    ensures
        delay_spec(policy.base@, policy.cap@, attempts) == (if doubled(
            policy.base@,
            (attempts - 1) as nat,
        ) <= policy.cap@ {
            doubled(policy.base@, (attempts - 1) as nat)
        } else {
            policy.cap@
        }),
{
    lemma_backoff_from(policy.base@, policy.cap@, (attempts - 1) as nat);
}

/// More failures never mean a shorter wait.
pub proof fn lemma_backoff_monotone(policy: BackoffPolicy, a: nat, b: nat)
    requires
        policy.base@ >= 0,
        policy.cap@ < (i64::MAX as int) * 1_000_000_000,
        1 <= a <= b,
    ensures
        delay_spec(policy.base@, policy.cap@, a) <= delay_spec(policy.base@, policy.cap@, b),
    decreases b - a,
{
    lemma_backoff_closed_form(policy, a);
    lemma_backoff_closed_form(policy, b);
    if a < b {
        lemma_backoff_monotone(policy, a, (b - 1) as nat);
        lemma_backoff_closed_form(policy, (b - 1) as nat);
        lemma_doubled_monotone(policy.base@, (b - 2) as nat);
        lemma_doubled_nonneg(policy.base@, (b - 2) as nat);
    }
}

proof fn lemma_doubled_nonneg(base: int, k: nat)
    requires
        base >= 0,
    ensures
        doubled(base, k) >= 0,
    decreases k,
{
    if k > 0 {
        lemma_doubled_nonneg(base, (k - 1) as nat);
    }
}


// ---------------------------------------------------------------------------
// Failure categories
// ---------------------------------------------------------------------------

/// What was being done to the card when it failed.
#[derive(Debug, Clone, Copy, PartialEq, Eq, Structural)]
pub enum FailureOp {
    /// Fetching or parsing the source card.
    Read,
    Create,
    Update,
    Delete,
}

pub open spec fn op_name(op: FailureOp) -> Seq<char> {
    match op {
        FailureOp::Read => "read"@,
        FailureOp::Create => "create"@,
        FailureOp::Update => "update"@,
        FailureOp::Delete => "delete"@,
    }
}

/// The operation named `s`, exactly as `op_name` writes it.
pub open spec fn parse_op_spec(s: Seq<char>) -> Option<FailureOp> {
    if s == op_name(FailureOp::Read) {
        Some(FailureOp::Read)
    } else if s == op_name(FailureOp::Create) {
        Some(FailureOp::Create)
    } else if s == op_name(FailureOp::Update) {
        Some(FailureOp::Update)
    } else if s == op_name(FailureOp::Delete) {
        Some(FailureOp::Delete)
    } else {
        None
    }
}

fn str_eq(a: &str, b: &str) -> (r: bool)
    ensures
        r == (a@ == b@),
{
    let x = crate::text::chars_of(a);
    let y = crate::text::chars_of(b);
    crate::text::chars_eq(&x, &y)
}

impl FailureOp {
    pub fn as_str(self) -> (r: &'static str)
        ensures
            r@ == op_name(self),
    {
        match self {
            FailureOp::Read => "read",
            FailureOp::Create => "create",
            FailureOp::Update => "update",
            FailureOp::Delete => "delete",
        }
    }

    /// Parses an operation name.
    pub fn parse(s: &str) -> (r: Result<FailureOp, String>)
        ensures
            match r {
                Ok(op) => parse_op_spec(s@) == Some(op),
                Err(m) => parse_op_spec(s@) is None && m@ == "unknown failure op `"@ + s@ + "`"@,
            },
    {
        if str_eq(s, "read") {
            Ok(FailureOp::Read)
        } else if str_eq(s, "create") {
            Ok(FailureOp::Create)
        } else if str_eq(s, "update") {
            Ok(FailureOp::Update)
        } else if str_eq(s, "delete") {
            Ok(FailureOp::Delete)
        } else {
            let mut m = String::from_str("unknown failure op `");
            m.append(s);
            m.append("`");
            Err(m)
        }
    }
}

impl std::str::FromStr for FailureOp {
    type Err = String;

    fn from_str(s: &str) -> (r: Result<Self, Self::Err>)
        ensures
            match r {
                Ok(op) => parse_op_spec(s@) == Some(op),
                Err(m) => parse_op_spec(s@) is None && m@ == "unknown failure op `"@ + s@ + "`"@,
            },
    {
        FailureOp::parse(s)
    }
}

/// Why a card failed, as a category. Never holds server text, which can echo
/// card content (PII).
#[derive(Debug, Clone, Copy, PartialEq, Eq, Structural)]
pub enum FailureReason {
    /// The card is not a valid vCard.
    InvalidCard,
    /// The card has no `UID`.
    MissingUid,
    /// The card is not vCard 3.0.
    UnsupportedVersion,
    /// The server refused a conditional write (412).
    PreconditionFailed,
    /// The server rate-limited the request (429/503).
    RateLimited,
    /// A 5xx, timeout or connection failure.
    Transient,
    /// The server rejected the credentials.
    Unauthorized,
    /// The server rejected the card or request for another reason.
    Rejected,
    /// Any other error (for example a state-store failure).
    Internal,
}

pub open spec fn reason_name(r: FailureReason) -> Seq<char> {
    match r {
        FailureReason::InvalidCard => "invalid_card"@,
        FailureReason::MissingUid => "missing_uid"@,
        FailureReason::UnsupportedVersion => "unsupported_version"@,
        FailureReason::PreconditionFailed => "precondition_failed"@,
        FailureReason::RateLimited => "rate_limited"@,
        FailureReason::Transient => "transient"@,
        FailureReason::Unauthorized => "unauthorized"@,
        FailureReason::Rejected => "rejected"@,
        FailureReason::Internal => "internal"@,
    }
}

/// The reason named `s`, exactly as `reason_name` writes it.
pub open spec fn parse_reason_spec(s: Seq<char>) -> Option<FailureReason> {
    if s == reason_name(FailureReason::InvalidCard) {
        Some(FailureReason::InvalidCard)
    } else if s == reason_name(FailureReason::MissingUid) {
        Some(FailureReason::MissingUid)
    } else if s == reason_name(FailureReason::UnsupportedVersion) {
        Some(FailureReason::UnsupportedVersion)
    } else if s == reason_name(FailureReason::PreconditionFailed) {
        Some(FailureReason::PreconditionFailed)
    } else if s == reason_name(FailureReason::RateLimited) {
        Some(FailureReason::RateLimited)
    } else if s == reason_name(FailureReason::Transient) {
        Some(FailureReason::Transient)
    } else if s == reason_name(FailureReason::Unauthorized) {
        Some(FailureReason::Unauthorized)
    } else if s == reason_name(FailureReason::Rejected) {
        Some(FailureReason::Rejected)
    } else if s == reason_name(FailureReason::Internal) {
        Some(FailureReason::Internal)
    } else {
        None
    }
}

/// The category an error is recorded under.
pub open spec fn reason_of(e: Error) -> FailureReason {
    match e {
        Error::VCard(VCardError::MissingUid) => FailureReason::MissingUid,
        Error::VCard(VCardError::UnsupportedVersion { .. }) => FailureReason::UnsupportedVersion,
        Error::VCard(_) => FailureReason::InvalidCard,
        Error::AddressBook(AddressBookError::PreconditionFailed { .. }) => FailureReason::PreconditionFailed,
        Error::AddressBook(AddressBookError::RateLimited { .. }) => FailureReason::RateLimited,
        Error::AddressBook(AddressBookError::Transient(_)) => FailureReason::Transient,
        Error::AddressBook(AddressBookError::Unauthorized) => FailureReason::Unauthorized,
        Error::AddressBook(AddressBookError::Permanent(_)) => FailureReason::Rejected,
        _ => FailureReason::Internal,
    }
}

impl FailureReason {
    pub fn as_str(self) -> (r: &'static str)
        ensures
            r@ == reason_name(self),
    {
        match self {
            FailureReason::InvalidCard => "invalid_card",
            FailureReason::MissingUid => "missing_uid",
            FailureReason::UnsupportedVersion => "unsupported_version",
            FailureReason::PreconditionFailed => "precondition_failed",
            FailureReason::RateLimited => "rate_limited",
            FailureReason::Transient => "transient",
            FailureReason::Unauthorized => "unauthorized",
            FailureReason::Rejected => "rejected",
            FailureReason::Internal => "internal",
        }
    }

    /// Parses a reason name.
    pub fn parse(s: &str) -> (r: Result<FailureReason, String>)
        ensures
            match r {
                Ok(reason) => parse_reason_spec(s@) == Some(reason),
                Err(m) => parse_reason_spec(s@) is None && m@ == "unknown failure reason `"@ + s@
                    + "`"@,
            },
    {
        if str_eq(s, "invalid_card") {
            Ok(FailureReason::InvalidCard)
        } else if str_eq(s, "missing_uid") {
            Ok(FailureReason::MissingUid)
        } else if str_eq(s, "unsupported_version") {
            Ok(FailureReason::UnsupportedVersion)
        } else if str_eq(s, "precondition_failed") {
            Ok(FailureReason::PreconditionFailed)
        } else if str_eq(s, "rate_limited") {
            Ok(FailureReason::RateLimited)
        } else if str_eq(s, "transient") {
            Ok(FailureReason::Transient)
        } else if str_eq(s, "unauthorized") {
            Ok(FailureReason::Unauthorized)
        } else if str_eq(s, "rejected") {
            Ok(FailureReason::Rejected)
        } else if str_eq(s, "internal") {
            Ok(FailureReason::Internal)
        } else {
            let mut m = String::from_str("unknown failure reason `");
            m.append(s);
            m.append("`");
            Err(m)
        }
    }

    /// The category of `error`.
    pub fn of(error: &Error) -> (r: FailureReason)
        ensures
            r == reason_of(*error),
    {
        match error {
            Error::VCard(VCardError::MissingUid) => FailureReason::MissingUid,
            Error::VCard(VCardError::UnsupportedVersion { .. }) => FailureReason::UnsupportedVersion,
            Error::VCard(_) => FailureReason::InvalidCard,
            Error::AddressBook(AddressBookError::PreconditionFailed { .. }) => {
                FailureReason::PreconditionFailed
            },
            Error::AddressBook(AddressBookError::RateLimited { .. }) => FailureReason::RateLimited,
            Error::AddressBook(AddressBookError::Transient(_)) => FailureReason::Transient,
            Error::AddressBook(AddressBookError::Unauthorized) => FailureReason::Unauthorized,
            Error::AddressBook(AddressBookError::Permanent(_)) => FailureReason::Rejected,
            _ => FailureReason::Internal,
        }
    }
}

impl std::str::FromStr for FailureReason {
    type Err = String;

    fn from_str(s: &str) -> (r: Result<Self, Self::Err>)
        ensures
            match r {
                Ok(reason) => parse_reason_spec(s@) == Some(reason),
                Err(m) => parse_reason_spec(s@) is None && m@ == "unknown failure reason `"@ + s@
                    + "`"@,
            },
    {
        FailureReason::parse(s)
    }
}

impl From<&Error> for FailureReason {
    fn from(error: &Error) -> (r: Self) {
        FailureReason::of(error)
    }
}

impl vstd::std_specs::convert::FromSpecImpl<&Error> for FailureReason {
    open spec fn obeys_from_spec() -> bool {
        true
    }

    open spec fn from_spec(v: &Error) -> Self {
        reason_of(*v)
    }
}

/// Naming an operation and parsing the name gives the operation back.
pub proof fn lemma_op_round_trip(op: FailureOp)
    ensures
        parse_op_spec(op_name(op)) == Some(op),
{
    reveal_strlit("read");
    reveal_strlit("create");
    reveal_strlit("update");
    reveal_strlit("delete");
    assert(op_name(FailureOp::Read)[0] == 'r');
    assert(op_name(FailureOp::Create)[0] == 'c');
    assert(op_name(FailureOp::Update)[0] == 'u');
    assert(op_name(FailureOp::Delete)[0] == 'd');
}

/// Naming a reason and parsing the name gives the reason back.
pub proof fn lemma_reason_round_trip(reason: FailureReason)
    ensures
        parse_reason_spec(reason_name(reason)) == Some(reason),
{
    reveal_strlit("invalid_card");
    reveal_strlit("missing_uid");
    reveal_strlit("unsupported_version");
    reveal_strlit("precondition_failed");
    reveal_strlit("rate_limited");
    reveal_strlit("transient");
    reveal_strlit("unauthorized");
    reveal_strlit("rejected");
    reveal_strlit("internal");
    let names = seq![
        reason_name(FailureReason::InvalidCard),
        reason_name(FailureReason::MissingUid),
        reason_name(FailureReason::UnsupportedVersion),
        reason_name(FailureReason::PreconditionFailed),
        reason_name(FailureReason::RateLimited),
        reason_name(FailureReason::Transient),
        reason_name(FailureReason::Unauthorized),
        reason_name(FailureReason::Rejected),
        reason_name(FailureReason::Internal),
    ];
    assert forall|i: int, j: int| 0 <= i < j < 9 implies names[i] != names[j] by {
        if names[i].len() == names[j].len() {
            assert(names[i][0] != names[j][0] || names[i][1] != names[j][1] || names[i][2]
                != names[j][2]);
        }
    }
    assert(names[0] != names[1]);
}


// ---------------------------------------------------------------------------
// Failing cards
// ---------------------------------------------------------------------------

pub type CardFailureId = u64;

pub open spec fn opt_etag(e: Option<ETag>) -> Option<Seq<char>> {
    match e {
        Some(t) => Some(t@),
        None => None,
    }
}

pub open spec fn opt_etag_ref(e: Option<&ETag>) -> Option<Seq<char>> {
    match e {
        Some(t) => Some(t@),
        None => None,
    }
}

fn same_etag(a: Option<&ETag>, b: Option<&ETag>) -> (r: bool)
    ensures
        r == (opt_etag_ref(a) == opt_etag_ref(b)),
{
    match (a, b) {
        (Some(x), Some(y)) => x.same(y),
        (None, None) => true,
        _ => false,
    }
}

/// A failure to record. `side` and `href` name the resource that failed: the
/// source card for read, create and update, and the destination card for
/// delete. `uid` is `None` when the card could not be parsed.
#[derive(Debug, Clone, PartialEq, Eq)]
pub struct FailedCard {
    pub side: Side,
    pub href: Href,
    pub uid: Option<Uid>,
    pub op: FailureOp,
    /// The resource's ETag when it failed, so an edit can be detected.
    pub etag: Option<ETag>,
    pub reason: FailureReason,
}

/// A card that keeps failing, with its backoff state. Keyed by `side` and
/// `href`.
#[derive(Debug, Clone, PartialEq, Eq)]
pub struct CardFailure {
    pub id: CardFailureId,
    pub version: u64,
    pub side: Side,
    pub href: Href,
    pub uid: Option<Uid>,
    pub op: FailureOp,
    pub etag: Option<ETag>,
    pub reason: FailureReason,
    /// Consecutive failures of this version of the card.
    pub attempts: u32,
    pub first_failed_at: Timestamp,
    pub last_failed_at: Timestamp,
    pub next_retry_at: Timestamp,
}

/// Whether a failure recorded with `etag` restarts its count for a card
/// whose ETag is now `current`: a different ETag is a new version of the
/// card.
pub open spec fn restarts(previous: Option<CardFailure>, current: Option<ETag>) -> bool {
    match previous {
        None => true,
        Some(row) => opt_etag(row.etag) != opt_etag(current),
    }
}

/// The consecutive failures after one more of `failed`.
pub open spec fn attempts_after(previous: Option<CardFailure>, failed: FailedCard) -> u32 {
    if restarts(previous, failed.etag) {
        1
    } else {
        let n = previous->Some_0.attempts;
        if n == u32::MAX {
            u32::MAX
        } else {
            (n + 1) as u32
        }
    }
}

impl CardFailure {
    /// Whether to retry the card at `now`: its backoff has elapsed, or its
    /// ETag is no longer the one that failed (the user edited it).
    pub fn is_due(&self, now: Timestamp, current_etag: Option<&ETag>) -> (r: bool)
        ensures
            r == (now@ >= self.next_retry_at@ || opt_etag_ref(current_etag) != opt_etag(self.etag)),
    {
        now.at_or_after(&self.next_retry_at) || !same_etag(current_etag, self.etag.as_ref())
    }

    /// The failure record after `failed` fails at `now`, given the record
    /// already kept for the same resource, if any. The first failure starts
    /// with one attempt; a repeat adds one, unless the card's ETag differs
    /// from the recorded one, which restarts the count at one (a new version
    /// of the card). The next retry is `now` plus the policy's delay for the
    /// attempts. A new record has id and version 0: the store assigns them.
    pub fn record(
        previous: Option<CardFailure>,
        failed: FailedCard,
        now: Timestamp,
        policy: &BackoffPolicy,
    ) -> (r: CardFailure)
        requires
            fits_instant(
                now@,
                delay_spec(
                    policy.base@,
                    policy.cap@,
                    attempts_after(previous, failed) as nat,
                ),
            ),
        ensures
            r.attempts == attempts_after(previous, failed),
            r.next_retry_at@ == now@ + delay_spec(policy.base@, policy.cap@, r.attempts as nat),
            r.last_failed_at == now,
            r.first_failed_at == (if restarts(previous, failed.etag) {
                now
            } else {
                previous->Some_0.first_failed_at
            }),
            r.uid == failed.uid,
            r.op == failed.op,
            r.etag == failed.etag,
            r.reason == failed.reason,
            match previous {
                None => r.id == 0 && r.version == 0 && r.side == failed.side && r.href
                    == failed.href,
                Some(row) => r.id == row.id && r.version == row.version && r.side == row.side
                    && r.href == row.href,
            },
    {
        match previous {
            None => {
                let delay = policy.delay(1);
                CardFailure {
                    id: 0,
                    version: 0,
                    side: failed.side,
                    href: failed.href,
                    uid: failed.uid,
                    op: failed.op,
                    etag: failed.etag,
                    reason: failed.reason,
                    attempts: 1,
                    first_failed_at: now,
                    last_failed_at: now,
                    next_retry_at: now.plus(delay),
                }
            },
            Some(row) => {
                let restarted = !same_etag(row.etag.as_ref(), failed.etag.as_ref());
                let attempts: u32 = if restarted {
                    1
                } else if row.attempts == u32::MAX {
                    u32::MAX
                } else {
                    row.attempts + 1
                };
                let first = if restarted {
                    now
                } else {
                    row.first_failed_at
                };
                let delay = policy.delay(attempts);
                CardFailure {
                    id: row.id,
                    version: row.version,
                    side: row.side,
                    href: row.href,
                    uid: failed.uid,
                    op: failed.op,
                    etag: failed.etag,
                    reason: failed.reason,
                    attempts,
                    first_failed_at: first,
                    last_failed_at: now,
                    next_retry_at: now.plus(delay),
                }
            },
        }
    }
}


// ---------------------------------------------------------------------------
// Stored failure records
// ---------------------------------------------------------------------------

/// A failure record as the store keeps it: the side, operation and reason as
/// text, the ids and the count as signed integers.
pub struct CardFailureRow {
    pub id: i64,
    pub version: i64,
    pub side: String,
    pub href: String,
    pub uid: Option<String>,
    pub op: String,
    pub etag: Option<String>,
    pub reason: String,
    pub attempts: i64,
    pub first_failed_at: Timestamp,
    pub last_failed_at: Timestamp,
    pub next_retry_at: Timestamp,
}

/// `i` in decimal, with a leading `-` when negative.
pub open spec fn signed_decimal(i: int) -> Seq<char> {
    if i < 0 {
        seq!['-'] + decimal((-i) as nat)
    } else {
        decimal(i as nat)
    }
}

/// The message for a stored record whose `column` holds no valid value.
pub open spec fn corrupt_text(id: i64, column: Seq<char>) -> Seq<char> {
    "card_failures row "@ + signed_decimal(id as int) + ": invalid "@ + column
}

/// The first column of `row`, in the order they are read, that holds no
/// valid value.
pub open spec fn corrupt_column(row: CardFailureRow) -> Option<Seq<char>> {
    if parse_side_spec(row.side@) is None {
        Some("side"@)
    } else if parse_op_spec(row.op@) is None {
        Some("op"@)
    } else if parse_reason_spec(row.reason@) is None {
        Some("reason"@)
    } else if !(0 <= row.attempts <= u32::MAX) {
        Some("attempts"@)
    } else {
        None
    }
}

pub open spec fn opt_uid(u: Option<Uid>) -> Option<Seq<char>> {
    match u {
        Some(x) => Some(x@),
        None => None,
    }
}

pub open spec fn opt_text(t: Option<String>) -> Option<Seq<char>> {
    match t {
        Some(x) => Some(x@),
        None => None,
    }
}

fn signed_decimal_chars(i: i64) -> (r: Vec<char>)
    ensures
        r@ == signed_decimal(i as int),
{
    if i < 0 {
        let m: u64 = ((-(i + 1)) as u64) + 1;
        let mut out: Vec<char> = vec!['-'];
        let digits = crate::text::decimal_chars(m);
        crate::text::append_chars(&mut out, &digits);
        out
    } else {
        crate::text::decimal_chars(i as u64)
    }
}

/// The error for a stored record whose `column` holds no valid value.
fn corrupt(id: i64, column: &str) -> (e: Error)
    ensures
        e matches Error::RepositoryError(RepositoryError::Database(m)) && m@ == corrupt_text(
            id,
            column@,
        ),
{
    let mut text = crate::text::chars_of("card_failures row ");
    let digits = signed_decimal_chars(id);
    crate::text::append_chars(&mut text, &digits);
    let middle = crate::text::chars_of(": invalid ");
    crate::text::append_chars(&mut text, &middle);
    let col = crate::text::chars_of(column);
    crate::text::append_chars(&mut text, &col);
    proof {
        reveal_strlit("card_failures row ");
        reveal_strlit(": invalid ");
    }
    Error::RepositoryError(RepositoryError::Database(crate::text::string_of(&text)))
}

impl CardFailure {
    /// The failure a stored record holds. Fails, naming the record and the
    /// column, on the first of the side, operation, reason and count that
    /// holds no valid value.
    pub fn from_row(row: CardFailureRow) -> (r: Result<CardFailure, Error>)
        ensures
            match r {
                Ok(f) => {
                    &&& corrupt_column(row) is None
                    &&& f.id == row.id as u64
                    &&& f.version == row.version as u64
                    &&& parse_side_spec(row.side@) == Some(f.side)
                    &&& f.href@ == row.href@
                    &&& opt_uid(f.uid) == opt_text(row.uid)
                    &&& parse_op_spec(row.op@) == Some(f.op)
                    &&& opt_etag(f.etag) == opt_text(row.etag)
                    &&& parse_reason_spec(row.reason@) == Some(f.reason)
                    &&& f.attempts == row.attempts
                    &&& f.first_failed_at == row.first_failed_at
                    &&& f.last_failed_at == row.last_failed_at
                    &&& f.next_retry_at == row.next_retry_at
                },
                Err(e) => corrupt_column(row) matches Some(c) && e matches Error::RepositoryError(
                    RepositoryError::Database(m),
                ) && m@ == corrupt_text(row.id, c),
            },
    {
        proof {
            reveal_strlit("side");
            reveal_strlit("op");
            reveal_strlit("reason");
            reveal_strlit("attempts");
        }
        let id = row.id;
        let side = match Side::parse(row.side.as_str()) {
            Ok(side) => side,
            Err(_) => {
                return Err(corrupt(id, "side"));
            },
        };
        let op = match FailureOp::parse(row.op.as_str()) {
            Ok(op) => op,
            Err(_) => {
                return Err(corrupt(id, "op"));
            },
        };
        let reason = match FailureReason::parse(row.reason.as_str()) {
            Ok(reason) => reason,
            Err(_) => {
                return Err(corrupt(id, "reason"));
            },
        };
        if row.attempts < 0 || row.attempts > 4294967295 {
            return Err(corrupt(id, "attempts"));
        }
        let uid = match row.uid {
            Some(u) => Some(Uid::new(u)),
            None => None,
        };
        let etag = match row.etag {
            Some(t) => Some(ETag::new(t)),
            None => None,
        };
        Ok(
            CardFailure {
                id: row.id as u64,
                version: row.version as u64,
                side,
                href: Href::new(row.href),
                uid,
                op,
                etag,
                reason,
                attempts: row.attempts as u32,
                first_failed_at: row.first_failed_at,
                last_failed_at: row.last_failed_at,
                next_retry_at: row.next_retry_at,
            },
        )
    }
}


// ---------------------------------------------------------------------------
// Discovered endpoints
// ---------------------------------------------------------------------------

/// What is kept for one side's address book: where discovery found it, and
/// the sync token to resume from.
pub struct EndpointState {
    pub side: Side,
    pub addressbook_url: String,
    pub discovered_host: String,
    pub sync_token: Option<String>,
}

/// The endpoint after discovery finds the address book at `url` on `host`.
/// A new endpoint starts without a sync token; a known one keeps its token
/// unless the address book moved to another URL, whose tokens it cannot
/// use.
pub fn rediscovered(old: Option<EndpointState>, side: Side, url: String, host: String) -> (e:
    EndpointState)
    ensures
        e.side == side,
        e.addressbook_url@ == url@,
        e.discovered_host@ == host@,
        opt_text(e.sync_token) == match old {
            Some(o) => if o.addressbook_url@ == url@ {
                opt_text(o.sync_token)
            } else {
                None
            },
            None => None,
        },
{
    let sync_token = match old {
        None => None,
        Some(o) => if str_eq(o.addressbook_url.as_str(), url.as_str()) {
            o.sync_token
        } else {
            None
        },
    };
    EndpointState { side, addressbook_url: url, discovered_host: host, sync_token }
}


// ---------------------------------------------------------------------------
// Synced contacts
// ---------------------------------------------------------------------------

/// One side's copy of a synced contact.
pub struct SideState {
    pub href: Href,
    pub etag: ETag,
    pub last_seen_at: Timestamp,
}

/// What was last synced for one contact: each side's copy, the hash of its
/// canonical form, and the card itself.
pub struct ContactState {
    pub id: u64,
    pub version: u64,
    pub uid: Uid,
    pub icloud: SideState,
    pub fastmail: SideState,
    pub content_hash: crate::vcard::CardHash,
    pub hash_version: u8,
    pub photo_stripped: bool,
    pub last_synced_vcard: crate::vcard::VCard,
    pub last_synced_at: Timestamp,
    pub created_at: Timestamp,
    pub updated_at: Timestamp,
}

/// A synced contact as the store keeps it: the hash as hex, its version as
/// a signed integer, the card as bytes.
pub struct ContactStateRow {
    pub id: i64,
    pub version: i64,
    pub uid: String,
    pub icloud_href: String,
    pub icloud_etag: String,
    pub icloud_last_seen_at: Timestamp,
    pub fastmail_href: String,
    pub fastmail_etag: String,
    pub fastmail_last_seen_at: Timestamp,
    pub content_hash: String,
    pub hash_version: i64,
    pub photo_stripped: bool,
    pub last_synced_vcard: Vec<u8>,
    pub last_synced_at: Timestamp,
    pub created_at: Timestamp,
    pub updated_at: Timestamp,
}

/// The message for a stored contact whose `column` holds no valid value.
pub open spec fn contact_corrupt_text(id: i64, column: Seq<char>) -> Seq<char> {
    "contacts row "@ + signed_decimal(id as int) + ": invalid "@ + column
}

/// The first column of a stored contact, in the order they are read, that
/// holds no valid value.
pub open spec fn contact_corrupt_column(row: ContactStateRow) -> Option<Seq<char>> {
    if crate::vcard::canonical::from_hex_spec(vstd::utf8::encode_utf8(row.content_hash@)) is Err {
        Some("content_hash"@)
    } else if !(0 <= row.hash_version <= 255) {
        Some("hash_version"@)
    } else if crate::vcard::card::parse_card_spec(row.last_synced_vcard@) is Err {
        Some("last_synced_vcard"@)
    } else {
        None
    }
}

/// The error for a stored contact whose `column` holds no valid value.
fn contact_corrupt(id: i64, column: &str) -> (e: Error)
    ensures
        e matches Error::RepositoryError(RepositoryError::Database(m)) && m@ == contact_corrupt_text(
            id,
            column@,
        ),
{
    let mut text = crate::text::chars_of("contacts row ");
    let digits = signed_decimal_chars(id);
    crate::text::append_chars(&mut text, &digits);
    let middle = crate::text::chars_of(": invalid ");
    crate::text::append_chars(&mut text, &middle);
    let col = crate::text::chars_of(column);
    crate::text::append_chars(&mut text, &col);
    proof {
        reveal_strlit("contacts row ");
        reveal_strlit(": invalid ");
    }
    Error::RepositoryError(RepositoryError::Database(crate::text::string_of(&text)))
}

impl ContactState {
    /// The synced contact a stored record holds. Fails, naming the record
    /// and the column, on the first of the hash, its version and the card
    /// that holds no valid value.
    pub fn from_row(row: ContactStateRow) -> (r: Result<ContactState, Error>)
        ensures
            match r {
                Ok(c) => {
                    &&& contact_corrupt_column(row) is None
                    &&& c.id == row.id as u64
                    &&& c.version == row.version as u64
                    &&& c.uid@ == row.uid@
                    &&& c.icloud.href@ == row.icloud_href@
                    &&& c.icloud.etag@ == row.icloud_etag@
                    &&& c.icloud.last_seen_at == row.icloud_last_seen_at
                    &&& c.fastmail.href@ == row.fastmail_href@
                    &&& c.fastmail.etag@ == row.fastmail_etag@
                    &&& c.fastmail.last_seen_at == row.fastmail_last_seen_at
                    &&& crate::vcard::canonical::from_hex_spec(
                        vstd::utf8::encode_utf8(row.content_hash@),
                    ) == Ok::<Seq<u8>, Seq<char>>(c.content_hash@)
                    &&& c.hash_version == row.hash_version
                    &&& c.photo_stripped == row.photo_stripped
                    &&& crate::vcard::card::parse_card_spec(row.last_synced_vcard@) == Ok::<
                        crate::vcard::VCardView,
                        crate::vcard::VCardErrorView,
                    >(c.last_synced_vcard@)
                    &&& c.last_synced_at == row.last_synced_at
                    &&& c.created_at == row.created_at
                    &&& c.updated_at == row.updated_at
                },
                Err(e) => contact_corrupt_column(row) matches Some(col) && e matches Error::RepositoryError(
                    RepositoryError::Database(m),
                ) && m@ == contact_corrupt_text(row.id, col),
            },
    {
        proof {
            reveal_strlit("content_hash");
            reveal_strlit("hash_version");
            reveal_strlit("last_synced_vcard");
        }
        let id = row.id;
        let content_hash = match crate::vcard::CardHash::from_hex(row.content_hash.as_str()) {
            Ok(h) => h,
            Err(_) => {
                return Err(contact_corrupt(id, "content_hash"));
            },
        };
        if row.hash_version < 0 || row.hash_version > 255 {
            return Err(contact_corrupt(id, "hash_version"));
        }
        let last_synced_vcard = match crate::vcard::VCard::parse(row.last_synced_vcard) {
            Ok(card) => card,
            Err(_) => {
                return Err(contact_corrupt(id, "last_synced_vcard"));
            },
        };
        Ok(
            ContactState {
                id: row.id as u64,
                version: row.version as u64,
                uid: Uid::new(row.uid),
                icloud: SideState {
                    href: Href::new(row.icloud_href),
                    etag: ETag::new(row.icloud_etag),
                    last_seen_at: row.icloud_last_seen_at,
                },
                fastmail: SideState {
                    href: Href::new(row.fastmail_href),
                    etag: ETag::new(row.fastmail_etag),
                    last_seen_at: row.fastmail_last_seen_at,
                },
                content_hash,
                hash_version: row.hash_version as u8,
                photo_stripped: row.photo_stripped,
                last_synced_vcard,
                last_synced_at: row.last_synced_at,
                created_at: row.created_at,
                updated_at: row.updated_at,
            },
        )
    }
}


/// Whether a synced contact may be written over the stored one: there must
/// be a stored one (`stored_version`), and it must still be at the version
/// the caller read, else someone else wrote it first.
pub fn check_update_version(stored_version: Option<i64>, state_version: u64) -> (r: Result<(), Error>)
    ensures
        match stored_version {
            None => r matches Err(Error::RepositoryError(RepositoryError::NotFound)),
            Some(v) => if v as u64 != state_version {
                r matches Err(Error::RepositoryError(RepositoryError::Conflict))
            } else {
                r is Ok
            },
        },
{
    match stored_version {
        None => Err(Error::RepositoryError(RepositoryError::NotFound)),
        Some(v) => if v as u64 != state_version {
            Err(Error::RepositoryError(RepositoryError::Conflict))
        } else {
            Ok(())
        },
    }
}

} // verus!

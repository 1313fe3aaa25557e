//! Errors of the library and the kind each maps to for callers.

use vstd::prelude::*;
use crate::contact::Href;
use crate::vcard::VCardError;

verus! {

/// Categorizes errors for response mapping in adapters.
#[derive(Debug, Clone, Copy, PartialEq, Eq, Structural)]
pub enum ErrorKind {
    /// Resource not found.
    NotFound,
    /// Resource conflict, e.g., optimistic locking failure.
    Conflict,
    /// Invalid input or constraint violation.
    InvalidInput,
    /// Malformed request data.
    BadRequest,
    /// Internal or infrastructure error.
    Internal,
    /// Service temporarily unavailable (transient: DB or storage unreachable).
    ServiceUnavailable,
}

#[derive(Debug, Clone)]
pub enum Error {
    InvalidId(u64),
    InvalidPageSize(u64),
    Validation(String),
    InvalidTransactionType,
    InvalidToken(String),
    Infrastructure(String),
    /// An interface method that is defined but not yet implemented.
    Unimplemented(&'static str),
    RepositoryError(RepositoryError),
    VCard(VCardError),
    AddressBook(AddressBookError),
}

#[derive(Debug, Clone)]
pub enum RepositoryError {
    Constraint(String),
    Conflict,
    NotFound,
    ReadOnly,
    Database(String),
    QueryCanceled,
    /// Database connection lost (DNS failure, network partition, pool
    /// exhausted). Transient: callers should retry.
    Connection(String),
    /// Database temporarily locked or busy. Transient: the lock clears once
    /// the holding transaction commits, so callers should retry.
    Busy(String),
}

/// Failures from an address book adapter. Payloads never carry card content
/// (PII): an href, a duration, or a short server or transport description.
#[derive(Debug, Clone, PartialEq, Eq)]
pub enum AddressBookError {
    /// The `If-Match` / `If-None-Match` precondition failed (HTTP 412).
    PreconditionFailed { href: Href },
    /// HTTP 429 or 503, with the server's `Retry-After` when it sent one.
    /// Transient.
    RateLimited { retry_after: Option<Wait> },
    /// 5xx, timeout or connection failure. Transient: retry with backoff.
    Transient(String),
    /// The server rejected the credentials. Permanent until the
    /// configuration changes.
    Unauthorized,
    /// Any other failure the next attempt will not fix.
    Permanent(String),
}

pub open spec fn repository_kind(e: RepositoryError) -> ErrorKind {
    match e {
        RepositoryError::NotFound => ErrorKind::NotFound,
        RepositoryError::Conflict => ErrorKind::Conflict,
        RepositoryError::Constraint(_) => ErrorKind::InvalidInput,
        RepositoryError::ReadOnly | RepositoryError::Database(_)
        | RepositoryError::QueryCanceled => ErrorKind::Internal,
        RepositoryError::Connection(_) | RepositoryError::Busy(_) => ErrorKind::ServiceUnavailable,
    }
}

pub open spec fn address_book_kind(e: AddressBookError) -> ErrorKind {
    match e {
        AddressBookError::PreconditionFailed { .. } => ErrorKind::Conflict,
        AddressBookError::RateLimited { .. } | AddressBookError::Transient(_) => ErrorKind::ServiceUnavailable,
        AddressBookError::Unauthorized | AddressBookError::Permanent(_) => ErrorKind::Internal,
    }
}

pub open spec fn error_kind(e: Error) -> ErrorKind {
    match e {
        Error::InvalidId(_) | Error::InvalidPageSize(_) | Error::InvalidToken(_) => ErrorKind::BadRequest,
        Error::Validation(_) | Error::VCard(_) => ErrorKind::InvalidInput,
        Error::InvalidTransactionType | Error::Infrastructure(_) | Error::Unimplemented(_) => ErrorKind::Internal,
        Error::RepositoryError(r) => repository_kind(r),
        Error::AddressBook(a) => address_book_kind(a),
    }
}

/// Transient infrastructure failures: a lost or busy database connection,
/// and rate limiting or transient failures of a server.
pub open spec fn error_is_transient(e: Error) -> bool {
    match e {
        Error::RepositoryError(RepositoryError::Connection(_)) => true,
        Error::RepositoryError(RepositoryError::Busy(_)) => true,
        Error::AddressBook(AddressBookError::RateLimited { .. }) => true,
        Error::AddressBook(AddressBookError::Transient(_)) => true,
        _ => false,
    }
}

impl Error {
    /// Returns the error kind for response mapping in adapters.
    pub fn kind(&self) -> (r: ErrorKind)
        ensures
            r == error_kind(*self),
    {
        match self {
            Error::InvalidId(_) | Error::InvalidPageSize(_) | Error::InvalidToken(_) => ErrorKind::BadRequest,
            Error::Validation(_) | Error::VCard(_) => ErrorKind::InvalidInput,
            Error::InvalidTransactionType | Error::Infrastructure(_) | Error::Unimplemented(_) => ErrorKind::Internal,
            Error::RepositoryError(e) => e.kind(),
            Error::AddressBook(e) => e.kind(),
        }
    }

    /// Returns `true` for errors caused by transient infrastructure failures;
    /// subsystems retry these rather than propagating them.
    pub fn is_transient(&self) -> (r: bool)
        ensures
            r == error_is_transient(*self),
    {
        match self {
            Error::RepositoryError(RepositoryError::Connection(_)) => true,
            Error::RepositoryError(RepositoryError::Busy(_)) => true,
            Error::AddressBook(AddressBookError::RateLimited { .. }) => true,
            Error::AddressBook(AddressBookError::Transient(_)) => true,
            _ => false,
        }
    }
}

impl RepositoryError {
    /// Returns the error kind for response mapping in adapters.
    pub fn kind(&self) -> (r: ErrorKind)
        ensures
            r == repository_kind(*self),
    {
        match self {
            RepositoryError::NotFound => ErrorKind::NotFound,
            RepositoryError::Conflict => ErrorKind::Conflict,
            RepositoryError::Constraint(_) => ErrorKind::InvalidInput,
            RepositoryError::ReadOnly | RepositoryError::Database(_)
            | RepositoryError::QueryCanceled => ErrorKind::Internal,
            RepositoryError::Connection(_) | RepositoryError::Busy(_) => ErrorKind::ServiceUnavailable,
        }
    }
}

impl AddressBookError {
    /// Returns the error kind for response mapping in adapters.
    pub fn kind(&self) -> (r: ErrorKind)
        ensures
            r == address_book_kind(*self),
    {
        match self {
            AddressBookError::PreconditionFailed { .. } => ErrorKind::Conflict,
            AddressBookError::RateLimited { .. } | AddressBookError::Transient(_) => ErrorKind::ServiceUnavailable,
            AddressBookError::Unauthorized | AddressBookError::Permanent(_) => ErrorKind::Internal,
        }
    }
}

impl From<RepositoryError> for Error {
    fn from(e: RepositoryError) -> (r: Self) {
        Error::RepositoryError(e)
    }
}

impl vstd::std_specs::convert::FromSpecImpl<RepositoryError> for Error {
    open spec fn obeys_from_spec() -> bool {
        true
    }

    open spec fn from_spec(e: RepositoryError) -> Self {
        Error::RepositoryError(e)
    }
}

impl From<VCardError> for Error {
    fn from(e: VCardError) -> (r: Self) {
        Error::VCard(e)
    }
}

impl vstd::std_specs::convert::FromSpecImpl<VCardError> for Error {
    open spec fn obeys_from_spec() -> bool {
        true
    }

    open spec fn from_spec(e: VCardError) -> Self {
        Error::VCard(e)
    }
}

impl From<AddressBookError> for Error {
    fn from(e: AddressBookError) -> (r: Self) {
        Error::AddressBook(e)
    }
}

impl vstd::std_specs::convert::FromSpecImpl<AddressBookError> for Error {
    open spec fn obeys_from_spec() -> bool {
        true
    }

    open spec fn from_spec(e: AddressBookError) -> Self {
        Error::AddressBook(e)
    }
}


// ---------------------------------------------------------------------------
// Messages
// ---------------------------------------------------------------------------

/// The message of a repository error (its `Display` form).
pub open spec fn repository_message(e: RepositoryError) -> Seq<char> {
    match e {
        RepositoryError::Constraint(m) => "Constraint Error - "@ + m@,
        RepositoryError::Conflict => "Conflict Error"@,
        RepositoryError::NotFound => "Not found"@,
        RepositoryError::ReadOnly => "Read-only Transaction"@,
        RepositoryError::Database(m) => "Database error: "@ + m@,
        RepositoryError::QueryCanceled => "Query canceled"@,
        RepositoryError::Connection(m) => "Connection Error: "@ + m@,
        RepositoryError::Busy(m) => "Database busy: "@ + m@,
    }
}

/// The message of an address book error (its `Display` form).
pub open spec fn address_book_message(e: AddressBookError) -> Seq<char> {
    match e {
        AddressBookError::PreconditionFailed { href } => "Precondition failed for "@ + href@,
        AddressBookError::RateLimited { retry_after } => "Rate limited (retry after "@ + wait_text(
            retry_after,
        ) + ")"@,
        AddressBookError::Transient(m) => "Transient CardDAV error: "@ + m@,
        AddressBookError::Unauthorized => "CardDAV authentication failed"@,
        AddressBookError::Permanent(m) => "CardDAV error: "@ + m@,
    }
}

/// A wait before retrying (a `std::time::Duration`): whole seconds, and
/// nanoseconds below one second.
#[derive(Debug, Clone, Copy, PartialEq, Eq)]
pub struct Wait {
    pub(crate) secs: u64,
    pub(crate) nanos: u32,
}

impl View for Wait {
    type V = (u64, u32);

    open(crate) spec fn view(&self) -> (u64, u32) {
        (self.secs, self.nanos)
    }
}

impl Wait {
    #[verifier::type_invariant]
    spec fn well_formed(&self) -> bool {
        self.nanos < 1_000_000_000
    }

    /// A wait of `secs` whole seconds.
    pub fn from_secs(secs: u64) -> (r: Wait)
        ensures
            r@ == (secs, 0u32),
    {
        Wait { secs, nanos: 0 }
    }

    /// A wait of `secs` seconds and `nanos` nanoseconds, whole seconds of
    /// `nanos` carried into `secs`.
    pub fn new(secs: u64, nanos: u32) -> (r: Wait)
        requires
            secs + nanos / 1_000_000_000 <= u64::MAX,
        ensures
            r@ == ((secs + nanos / 1_000_000_000) as u64, (nanos % 1_000_000_000) as u32),
    {
        Wait { secs: secs + (nanos / 1_000_000_000) as u64, nanos: nanos % 1_000_000_000 }
    }

    /// The whole seconds.
    pub fn as_secs(&self) -> (r: u64)
        ensures
            r == self@.0,
    {
        self.secs
    }

    /// The nanoseconds past the whole seconds, below one second.
    pub fn subsec_nanos(&self) -> (r: u32)
        ensures
            r == self@.1,
            r < 1_000_000_000,
    {
        proof {
            use_type_invariant(self);
        }
        self.nanos
    }
}

/// What the `Debug` form of a `Duration` of `secs` seconds and `nanos`
/// nanoseconds shows (such as `30s` or `1.5ms`).
pub uninterp spec fn duration_debug_text(secs: u64, nanos: u32) -> Seq<char>;

/// `format!("{:?}", Duration::new(secs, nanos))`: the `Debug` form of a
/// duration, a function of its seconds and nanoseconds alone. With `nanos`
/// below one second, `Duration::new` carries nothing and cannot panic.
#[verifier::external_body]
fn duration_debug(secs: u64, nanos: u32) -> (r: String)
    requires
        nanos < 1_000_000_000,
    ensures
        r@ == duration_debug_text(secs, nanos),
{
    format!("{:?}", std::time::Duration::new(secs, nanos))
}

/// The `Debug` form of an optional wait: `None`, or `Some(` the duration
/// `)`.
pub open spec fn wait_text(w: Option<Wait>) -> Seq<char> {
    match w {
        None => "None"@,
        Some(x) => "Some("@ + duration_debug_text(x@.0, x@.1) + ")"@,
    }
}

fn wait_debug(w: &Option<Wait>) -> (r: String)
    ensures
        r@ == wait_text(*w),
{
    match w {
        None => String::from_str("None"),
        Some(x) => {
            let mut out = String::from_str("Some(");
            let d = duration_debug(x.as_secs(), x.subsec_nanos());
            out.append(d.as_str());
            out.append(")");
            out
        },
    }
}

fn decimal_string(n: u64) -> (r: String)
    ensures
        r@ == crate::text::decimal(n as nat),
{
    let digits = crate::text::decimal_chars(n);
    crate::text::string_of(&digits)
}

impl RepositoryError {
    /// The error's message (its `Display` form).
    pub fn to_string(&self) -> (r: String)
        ensures
            r@ == repository_message(*self),
    {
        match self {
            RepositoryError::Constraint(m) => {
                let mut out = String::from_str("Constraint Error - ");
                out.append(m.as_str());
                out
            },
            RepositoryError::Conflict => String::from_str("Conflict Error"),
            RepositoryError::NotFound => String::from_str("Not found"),
            RepositoryError::ReadOnly => String::from_str("Read-only Transaction"),
            RepositoryError::Database(m) => {
                let mut out = String::from_str("Database error: ");
                out.append(m.as_str());
                out
            },
            RepositoryError::QueryCanceled => String::from_str("Query canceled"),
            RepositoryError::Connection(m) => {
                let mut out = String::from_str("Connection Error: ");
                out.append(m.as_str());
                out
            },
            RepositoryError::Busy(m) => {
                let mut out = String::from_str("Database busy: ");
                out.append(m.as_str());
                out
            },
        }
    }
}

impl AddressBookError {
    /// The error's message (its `Display` form).
    pub fn to_string(&self) -> (r: String)
        ensures
            r@ == address_book_message(*self),
    {
        match self {
            AddressBookError::PreconditionFailed { href } => {
                let mut out = String::from_str("Precondition failed for ");
                out.append(href.as_str());
                out
            },
            AddressBookError::RateLimited { retry_after } => {
                let mut out = String::from_str("Rate limited (retry after ");
                let w = wait_debug(retry_after);
                out.append(w.as_str());
                out.append(")");
                out
            },
            AddressBookError::Transient(m) => {
                let mut out = String::from_str("Transient CardDAV error: ");
                out.append(m.as_str());
                out
            },
            AddressBookError::Unauthorized => String::from_str("CardDAV authentication failed"),
            AddressBookError::Permanent(m) => {
                let mut out = String::from_str("CardDAV error: ");
                out.append(m.as_str());
                out
            },
        }
    }
}

/// The message of an error (its `Display` form); wrapped errors show their
/// own message.
pub open spec fn message_of(e: Error) -> Seq<char> {
    match e {
        Error::InvalidId(n) => "Invalid ID: "@ + crate::text::decimal(n as nat),
        Error::InvalidPageSize(n) => "Invalid page size: "@ + crate::text::decimal(n as nat),
        Error::Validation(m) => "Validation error: "@ + m@,
        Error::InvalidTransactionType => "Invalid transaction type"@,
        Error::InvalidToken(m) => "Invalid token: "@ + m@,
        Error::Infrastructure(m) => "Infrastructure error: "@ + m@,
        Error::Unimplemented(m) => "Not implemented: "@ + m@,
        Error::RepositoryError(r) => repository_message(r),
        Error::VCard(v) => crate::vcard::error_message(v@),
        Error::AddressBook(a) => address_book_message(a),
    }
}

impl Error {
    /// The error's message (its `Display` form).
    pub fn to_string(&self) -> (r: String)
        ensures
            r@ == message_of(*self),
    {
        match self {
            Error::InvalidId(n) => {
                let mut out = String::from_str("Invalid ID: ");
                let d = decimal_string(*n);
                out.append(d.as_str());
                out
            },
            Error::InvalidPageSize(n) => {
                let mut out = String::from_str("Invalid page size: ");
                let d = decimal_string(*n);
                out.append(d.as_str());
                out
            },
            Error::Validation(m) => {
                let mut out = String::from_str("Validation error: ");
                out.append(m.as_str());
                out
            },
            Error::InvalidTransactionType => String::from_str("Invalid transaction type"),
            Error::InvalidToken(m) => {
                let mut out = String::from_str("Invalid token: ");
                out.append(m.as_str());
                out
            },
            Error::Infrastructure(m) => {
                let mut out = String::from_str("Infrastructure error: ");
                out.append(m.as_str());
                out
            },
            Error::Unimplemented(m) => {
                let mut out = String::from_str("Not implemented: ");
                out.append(*m);
                out
            },
            Error::RepositoryError(e) => e.to_string(),
            Error::VCard(e) => e.to_string(),
            Error::AddressBook(e) => e.to_string(),
        }
    }
}

} // verus!

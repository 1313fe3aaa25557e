//! What one side's CardDAV address book answers: the collection discovery
//! found, change sets, fetched cards and write guards.

use vstd::prelude::*;
use crate::contact::{ETag, Href};

pub use crate::contact::SyncToken;

verus! {

/// The address book collection discovery resolved for one side.
#[derive(Debug, Clone, PartialEq, Eq)]
pub struct Collection {
    /// Absolute URL of the address book collection.
    pub addressbook_url: String,
    /// The host principal discovery resolved (iCloud's numbered `pXX-` host).
    pub discovered_host: String,
    /// The collection answers `sync-collection` REPORTs. When false, callers
    /// enumerate with `list_etags`.
    pub supports_sync_collection: bool,
}

impl Collection {
    /// A collection equal to this one.
    pub fn copy(&self) -> (r: Collection)
        ensures
            r.addressbook_url@ == self.addressbook_url@,
            r.discovered_host@ == self.discovered_host@,
            r.supports_sync_collection == self.supports_sync_collection,
    {
        Collection {
            addressbook_url: self.addressbook_url.clone(),
            discovered_host: self.discovered_host.clone(),
            supports_sync_collection: self.supports_sync_collection,
        }
    }
}

/// What changed in the collection since a sync token.
#[derive(Debug, Clone, PartialEq, Eq)]
pub struct ChangeSet {
    /// Created or modified resources, with their current ETags.
    pub changed: Vec<(Href, ETag)>,
    /// Deleted resources. May include hrefs the caller never saw (created
    /// and deleted between two polls); callers ignore those.
    pub removed: Vec<Href>,
    /// Token to store and pass to the next `changes_since`.
    pub token: SyncToken,
}

/// Result of `changes_since`.
#[derive(Debug, Clone, PartialEq, Eq)]
pub enum Changes {
    Delta(ChangeSet),
    /// The server rejected the token (expired or unknown). Fall back to
    /// `changes_since(None)`: the full membership plus a fresh token.
    TokenInvalid,
}

/// One card exactly as the server returned it.
#[derive(Clone, PartialEq, Eq)]
pub struct FetchedCard {
    pub href: Href,
    pub etag: ETag,
    /// Verbatim vCard bytes. Full contact data (PII): never log it.
    pub body: Vec<u8>,
}

impl FetchedCard {
    /// `FetchedCard { href: Href(..), etag: ETag(..), bytes: <count> }`: the
    /// debug form, which leaves the body out.
    pub fn debug_string(&self) -> (r: String)
        ensures
            r@ == "FetchedCard { href: Href("@ + crate::text::debug_text(self.href@) + "), etag: ETag("@
                + crate::text::debug_text(self.etag@) + "), bytes: "@ + crate::text::decimal(
                self.body@.len(),
            ) + " }"@,
    {
        let mut out = String::from_str("FetchedCard { href: Href(");
        out.append(crate::text::str_debug(self.href.as_str()).as_str());
        out.append("), etag: ETag(");
        out.append(crate::text::str_debug(self.etag.as_str()).as_str());
        out.append("), bytes: ");
        let n = crate::text::decimal_chars(self.body.len() as u64);
        out.append(crate::text::string_of(&n).as_str());
        out.append(" }");
        out
    }
}

/// Result of `multiget`. No debug form: it holds card bodies.
#[derive(Clone, PartialEq, Eq)]
pub struct MultigetResult {
    pub found: Vec<FetchedCard>,
    /// Requested hrefs the server no longer has (deleted mid-cycle). Not an
    /// error.
    pub missing: Vec<Href>,
}

impl Default for MultigetResult {
    fn default() -> (r: Self)
        ensures
            r.found@.len() == 0,
            r.missing@.len() == 0,
    {
        MultigetResult { found: Vec::new(), missing: Vec::new() }
    }
}

/// Guard on a `put`.
#[derive(Debug, Clone, PartialEq, Eq)]
pub enum Precondition {
    /// `If-Match: <etag>`: update only if the resource still has this ETag.
    IfMatch(ETag),
    /// `If-None-Match: *`: create only; fail if the resource exists.
    IfNoneMatch,
}

} // verus!

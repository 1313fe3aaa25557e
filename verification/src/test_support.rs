//! A test double for one side's address book, without a server.

use vstd::prelude::*;
use std::collections::VecDeque;
use crate::addressbook::{ChangeSet, Changes, Collection, FetchedCard, MultigetResult, Precondition};
use crate::contact::{ETag, Href, SyncToken};
use crate::error::{AddressBookError, Error};
use crate::text::{decimal, rows};
use crate::vcard::order::{
    lemma_insert_unique, lemma_str_lt_irreflexive, sort_unique, str_lt, strictly_sorted,
    unique_pos_from,
};

verus! {

// ---------------------------------------------------------------------------
// Stored cards
// ---------------------------------------------------------------------------

/// One stored card as values.
pub struct StoredView {
    pub href: Seq<char>,
    pub etag: Seq<char>,
    pub body: Seq<u8>,
}

/// One stored card.
pub struct Stored {
    pub(crate) href: Href,
    pub(crate) etag: ETag,
    pub(crate) body: Vec<u8>,
}

impl View for Stored {
    type V = StoredView;

    open(crate) spec fn view(&self) -> StoredView {
        StoredView { href: self.href@, etag: self.etag@, body: self.body@ }
    }
}

pub open spec fn stored_views(v: Seq<Stored>) -> Seq<StoredView> {
    v.map_values(|c: Stored| c@)
}

pub open spec fn hrefs(cards: Seq<StoredView>) -> Seq<Seq<char>> {
    cards.map_values(|c: StoredView| c.href)
}

/// The index of the card stored under `href`, scanning from `i`; -1 when
/// there is none.
pub open spec fn find_from(cards: Seq<StoredView>, href: Seq<char>, i: int) -> int
    decreases cards.len() - i,
{
    if i < 0 || i >= cards.len() {
        -1
    } else if cards[i].href == href {
        i
    } else {
        find_from(cards, href, i + 1)
    }
}

/// The card stored under `href`.
pub open spec fn lookup(cards: Seq<StoredView>, href: Seq<char>) -> Option<StoredView> {
    let i = find_from(cards, href, 0);
    if i >= 0 {
        Some(cards[i])
    } else {
        None
    }
}

/// `cards` with `c` stored under its href, replacing the card there or
/// inserted in href order.
pub open spec fn put_card(cards: Seq<StoredView>, c: StoredView) -> Seq<StoredView> {
    let p = unique_pos_from(hrefs(cards), c.href, 0);
    if p < cards.len() && cards[p].href == c.href {
        cards.update(p, c)
    } else {
        cards.insert(p, c)
    }
}

/// `cards` without the card stored under `href`.
pub open spec fn remove_card(cards: Seq<StoredView>, href: Seq<char>) -> Seq<StoredView> {
    let i = find_from(cards, href, 0);
    if i >= 0 {
        cards.remove(i)
    } else {
        cards
    }
}

proof fn lemma_find_from(cards: Seq<StoredView>, href: Seq<char>, i: int)
    requires
        0 <= i <= cards.len(),
    ensures
        find_from(cards, href, i) == -1 || (i <= find_from(cards, href, i) < cards.len()
            && cards[find_from(cards, href, i)].href == href),
        find_from(cards, href, i) == -1 ==> forall|k: int|
            i <= k < cards.len() ==> #[trigger] cards[k].href != href,
        forall|k: int|
            i <= k < find_from(cards, href, i) ==> #[trigger] cards[k].href != href,
    decreases cards.len() - i,
{
    if i < cards.len() && cards[i].href != href {
        lemma_find_from(cards, href, i + 1);
    }
}

/// In a list of cards with strictly sorted hrefs, the card found under an
/// href is the one stored there, and none is found for an href not stored.
proof fn lemma_lookup(cards: Seq<StoredView>, href: Seq<char>)
    requires
        strictly_sorted(hrefs(cards)),
    ensures
        forall|k: int|
            0 <= k < cards.len() && #[trigger] cards[k].href == href ==> find_from(cards, href, 0)
                == k,
        (forall|k: int| 0 <= k < cards.len() ==> #[trigger] cards[k].href != href) ==> find_from(
            cards,
            href,
            0,
        ) == -1,
{
    lemma_find_from(cards, href, 0);
    assert forall|k: int| 0 <= k < cards.len() && #[trigger] cards[k].href == href implies find_from(
        cards,
        href,
        0,
    ) == k by {
        let f = find_from(cards, href, 0);
        if f != k {
            if f == -1 {
            } else if f < k {
                assert(hrefs(cards)[f] == cards[f].href);
                assert(hrefs(cards)[k] == cards[k].href);
                assert(str_lt(hrefs(cards)[f], hrefs(cards)[k]));
                lemma_str_lt_irreflexive(href);
            } else {
                assert(cards[k].href != href);
            }
        }
    }
}

proof fn lemma_hrefs_insert(cards: Seq<StoredView>, p: int, c: StoredView)
    requires
        0 <= p <= cards.len(),
    ensures
        hrefs(cards.insert(p, c)) == hrefs(cards).insert(p, c.href),
{
    assert(hrefs(cards.insert(p, c)) =~= hrefs(cards).insert(p, c.href));
}

/// Storing a card keeps the hrefs strictly sorted; afterwards its href finds
/// it and every other href finds what it found before.
pub proof fn lemma_put_card(cards: Seq<StoredView>, c: StoredView, other: Seq<char>)
    requires
        strictly_sorted(hrefs(cards)),
    ensures
        strictly_sorted(hrefs(put_card(cards, c))),
        lookup(put_card(cards, c), c.href) == Some(c),
        other != c.href ==> lookup(put_card(cards, c), other) == lookup(cards, other),
{
    let h = hrefs(cards);
    let p = unique_pos_from(h, c.href, 0);
    crate::vcard::order::lemma_unique_pos(h, c.href, 0);
    let r = put_card(cards, c);
    lemma_insert_unique(h, c.href);
    if p < cards.len() && cards[p].href == c.href {
        assert(h[p] == c.href);
        assert(hrefs(r) =~= h);
        assert(r[p] == c);
        lemma_lookup(r, c.href);
        lemma_lookup(r, other);
        lemma_lookup(cards, other);
        if other != c.href {
            lemma_find_from(cards, other, 0);
            lemma_find_from(r, other, 0);
            let f = find_from(cards, other, 0);
            if f >= 0 {
                assert(r[f] == cards[f]);
            } else {
                assert forall|k: int| 0 <= k < r.len() implies #[trigger] r[k].href != other by {
                    if k != p {
                        assert(r[k] == cards[k]);
                    }
                }
            }
        }
    } else {
        assert(!(p < h.len() && h[p] == c.href));
        assert(crate::vcard::order::insert_unique(h, c.href) == h.insert(p, c.href));
        lemma_hrefs_insert(cards, p, c);
        assert(hrefs(r) == crate::vcard::order::insert_unique(h, c.href));
        assert(r[p] == c);
        lemma_lookup(r, c.href);
        lemma_lookup(r, other);
        lemma_lookup(cards, other);
        if other != c.href {
            lemma_find_from(cards, other, 0);
            lemma_find_from(r, other, 0);
            let f = find_from(cards, other, 0);
            if f >= 0 {
                if f < p {
                    assert(r[f] == cards[f]);
                } else {
                    assert(r[f + 1] == cards[f]);
                }
            } else {
                assert forall|k: int| 0 <= k < r.len() implies #[trigger] r[k].href != other by {
                    if k < p {
                        assert(r[k] == cards[k]);
                    } else if k > p {
                        assert(r[k] == cards[k - 1]);
                    }
                }
            }
        }
    }
}

/// Removing a card keeps the hrefs strictly sorted; afterwards its href
/// finds nothing and every other href finds what it found before.
pub proof fn lemma_remove_card(cards: Seq<StoredView>, href: Seq<char>, other: Seq<char>)
    requires
        strictly_sorted(hrefs(cards)),
    ensures
        strictly_sorted(hrefs(remove_card(cards, href))),
        lookup(remove_card(cards, href), href) is None,
        other != href ==> lookup(remove_card(cards, href), other) == lookup(cards, other),
{
    lemma_find_from(cards, href, 0);
    let i = find_from(cards, href, 0);
    let r = remove_card(cards, href);
    if i >= 0 {
        assert(hrefs(r) =~= hrefs(cards).remove(i));
        assert forall|a: int, b: int| 0 <= a < b < hrefs(r).len() implies #[trigger] str_lt(
            hrefs(r)[a],
            hrefs(r)[b],
        ) by {
            let a0 = if a < i {
                a
            } else {
                a + 1
            };
            let b0 = if b < i {
                b
            } else {
                b + 1
            };
            assert(hrefs(r)[a] == hrefs(cards)[a0]);
            assert(hrefs(r)[b] == hrefs(cards)[b0]);
        }
        lemma_lookup(cards, href);
        lemma_lookup(cards, other);
        assert forall|k: int| 0 <= k < r.len() implies #[trigger] r[k].href != href by {
            if k < i {
                assert(r[k] == cards[k]);
            } else {
                assert(r[k] == cards[k + 1]);
                assert(hrefs(cards)[i] == cards[i].href);
                assert(hrefs(cards)[k + 1] == cards[k + 1].href);
                assert(str_lt(hrefs(cards)[i], hrefs(cards)[k + 1]));
                lemma_str_lt_irreflexive(href);
            }
        }
        lemma_lookup(r, href);
        lemma_lookup(r, other);
        if other != href {
            lemma_find_from(cards, other, 0);
            let f = find_from(cards, other, 0);
            if f >= 0 {
                if f < i {
                    assert(r[f] == cards[f]);
                } else {
                    assert(f != i);
                    assert(r[f - 1] == cards[f]);
                }
            } else {
                assert forall|k: int| 0 <= k < r.len() implies #[trigger] r[k].href != other by {
                    if k < i {
                        assert(r[k] == cards[k]);
                    } else {
                        assert(r[k] == cards[k + 1]);
                    }
                }
            }
        }
    } else {
        assert(r == cards);
    }
}


// ---------------------------------------------------------------------------
// The book
// ---------------------------------------------------------------------------

/// An address book operation, for targeting injected failures.
#[derive(Debug, Clone, Copy, PartialEq, Eq, Structural)]
pub enum Op {
    Discover,
    ChangesSince,
    ListEtags,
    Multiget,
    Put,
    Delete,
}

/// A write the code under test attempted, whether or not it succeeded.
/// Out-of-band edits (`external_put`, `external_delete`) are not recorded.
#[derive(Debug, Clone, PartialEq, Eq)]
pub enum Write {
    Put { href: Href, precondition: Precondition, body: Vec<u8> },
    Delete { href: Href, if_match: Option<ETag> },
}

/// A write as values: the href, the guard (`Some(etag)` for `If-Match`,
/// `None` for `If-None-Match` or none), and the body of a put.
pub enum WriteView {
    Put { href: Seq<char>, if_match: Option<Seq<char>>, body: Seq<u8> },
    Delete { href: Seq<char>, if_match: Option<Seq<char>> },
}

pub open spec fn guard_view(p: Precondition) -> Option<Seq<char>> {
    match p {
        Precondition::IfMatch(e) => Some(e@),
        Precondition::IfNoneMatch => None,
    }
}

pub open spec fn opt_etag_view(e: Option<ETag>) -> Option<Seq<char>> {
    match e {
        Some(t) => Some(t@),
        None => None,
    }
}

impl View for Write {
    type V = WriteView;

    open spec fn view(&self) -> WriteView {
        match self {
            Write::Put { href, precondition, body } => WriteView::Put {
                href: href@,
                if_match: guard_view(*precondition),
                body: body@,
            },
            Write::Delete { href, if_match } => WriteView::Delete {
                href: href@,
                if_match: opt_etag_view(*if_match),
            },
        }
    }
}

pub open spec fn write_views(v: Seq<Write>) -> Seq<WriteView> {
    v.map_values(|w: Write| w@)
}

/// The book as values.
pub struct BookView {
    pub url: Seq<char>,
    pub host: Seq<char>,
    pub supports_sync_collection: bool,
    /// The stored cards, in href order.
    pub cards: Seq<StoredView>,
    /// Bumped on every change; ETags and sync tokens are derived from it.
    pub version: nat,
    /// `(version, href)` for every create, update and delete, in order.
    pub changes: Seq<(nat, Seq<char>)>,
    /// Tokens issued before this version are rejected.
    pub valid_from: nat,
    pub writes: Seq<WriteView>,
    pub omit_etag_on_put: bool,
    pub failures: Seq<(Op, AddressBookError)>,
}

/// A stateful in-memory address book. It enforces `If-Match` and
/// `If-None-Match`, serves real sync-token deltas from a change log, records
/// every write attempt, and can inject faults. It needs no discovery before
/// use; changed, removed and listed cards come back in href order (a real
/// server's order is arbitrary); it accepts any href; and it stores bodies
/// verbatim.
pub struct InMemoryAddressBook {
    pub(crate) collection: Collection,
    pub(crate) cards: Vec<Stored>,
    pub(crate) version: u64,
    pub(crate) changes: Vec<(u64, Href)>,
    pub(crate) valid_from: u64,
    pub(crate) writes: Vec<Write>,
    pub(crate) omit_etag_on_put: bool,
    pub(crate) failures: VecDeque<(Op, AddressBookError)>,
}

pub open spec fn change_views(v: Seq<(u64, Href)>) -> Seq<(nat, Seq<char>)> {
    v.map_values(|c: (u64, Href)| (c.0 as nat, c.1@))
}

impl View for InMemoryAddressBook {
    type V = BookView;

    open(crate) spec fn view(&self) -> BookView {
        BookView {
            url: self.collection.addressbook_url@,
            host: self.collection.discovered_host@,
            supports_sync_collection: self.collection.supports_sync_collection,
            cards: stored_views(self.cards@),
            version: self.version as nat,
            changes: change_views(self.changes@),
            valid_from: self.valid_from as nat,
            writes: write_views(self.writes@),
            omit_etag_on_put: self.omit_etag_on_put,
            failures: self.failures@,
        }
    }
}

/// What every state of the book keeps.
pub open spec fn book_invariant(b: BookView) -> bool {
    &&& strictly_sorted(hrefs(b.cards))
    &&& b.valid_from <= b.version
    &&& b.version <= u64::MAX
    &&& forall|k: int| 0 <= k < b.changes.len() ==> #[trigger] b.changes[k].0 <= b.version
}

/// The ETag of the card stored at `version`: the version, quoted.
pub open spec fn etag_text(version: nat) -> Seq<char> {
    seq!['"'] + decimal(version) + seq!['"']
}

/// The sync token issued at `version`.
pub open spec fn token_text(version: nat) -> Seq<char> {
    "mem-sync-"@ + decimal(version)
}

/// The first queued failure for `op`, scanning from `i`; -1 when none.
pub open spec fn failure_pos_from(fs: Seq<(Op, AddressBookError)>, op: Op, i: int) -> int
    decreases fs.len() - i,
{
    if i < 0 || i >= fs.len() {
        -1
    } else if fs[i].0 == op {
        i
    } else {
        failure_pos_from(fs, op, i + 1)
    }
}

pub open spec fn failure_pos(fs: Seq<(Op, AddressBookError)>, op: Op) -> int {
    failure_pos_from(fs, op, 0)
}

proof fn lemma_failure_pos(fs: Seq<(Op, AddressBookError)>, op: Op, i: int)
    requires
        0 <= i <= fs.len(),
    ensures
        failure_pos_from(fs, op, i) == -1 || (i <= failure_pos_from(fs, op, i) < fs.len()
            && fs[failure_pos_from(fs, op, i)].0 == op),
    decreases fs.len() - i,
{
    if i < fs.len() && fs[i].0 != op {
        lemma_failure_pos(fs, op, i + 1);
    }
}

/// The book after the queued failure for `op`, if any, is consumed.
pub open spec fn after_failure(b: BookView, op: Op) -> BookView {
    let p = failure_pos(b.failures, op);
    if p >= 0 {
        BookView { failures: b.failures.remove(p), ..b }
    } else {
        b
    }
}

/// The error the queued failure for `op` raises, if any.
pub open spec fn injected(b: BookView, op: Op) -> Option<Error> {
    let p = failure_pos(b.failures, op);
    if p >= 0 {
        Some(Error::AddressBook(b.failures[p].1))
    } else {
        None
    }
}

/// The book with a failure of `op` queued after the others.
pub open spec fn queued(b: BookView, op: Op, error: AddressBookError) -> BookView {
    BookView { failures: b.failures.push((op, error)), ..b }
}

/// The book after every token issued so far is rejected: a new version,
/// from which tokens are valid again.
pub open spec fn tokens_expired(b: BookView) -> BookView {
    BookView { version: b.version + 1, valid_from: b.version + 1, ..b }
}

/// The book after `body` is stored under `href` as a new version.
pub open spec fn stored(b: BookView, href: Seq<char>, body: Seq<u8>) -> BookView {
    let v = b.version + 1;
    BookView {
        cards: put_card(b.cards, StoredView { href, etag: etag_text(v), body }),
        version: v,
        changes: b.changes.push((v, href)),
        ..b
    }
}

/// The book after the card under `href`, if any, is deleted.
pub open spec fn removed(b: BookView, href: Seq<char>) -> BookView {
    if lookup(b.cards, href) is Some {
        let v = b.version + 1;
        BookView {
            cards: remove_card(b.cards, href),
            version: v,
            changes: b.changes.push((v, href)),
            ..b
        }
    } else {
        b
    }
}

fn copy_bytes(b: &[u8]) -> (r: Vec<u8>)
    ensures
        r@ == b@,
{
    let mut out: Vec<u8> = Vec::new();
    crate::vcard::unfold::append_bytes(&mut out, b);
    out
}

impl Write {
    /// A write equal to this one.
    pub fn copy(&self) -> (r: Write)
        ensures
            r@ == self@,
    {
        match self {
            Write::Put { href, precondition, body } => Write::Put {
                href: href.copy(),
                precondition: match precondition {
                    Precondition::IfMatch(e) => Precondition::IfMatch(e.copy()),
                    Precondition::IfNoneMatch => Precondition::IfNoneMatch,
                },
                body: copy_bytes(body.as_slice()),
            },
            Write::Delete { href, if_match } => Write::Delete {
                href: href.copy(),
                if_match: match if_match {
                    Some(e) => Some(e.copy()),
                    None => None,
                },
            },
        }
    }
}

impl InMemoryAddressBook {
    /// The stored hrefs are strictly sorted, and no token validity starts
    /// after the current version.
    pub closed spec fn well_formed(&self) -> bool {
        &&& strictly_sorted(hrefs(stored_views(self.cards@)))
        &&& self.valid_from <= self.version
        &&& forall|k: int| 0 <= k < self.changes@.len() ==> #[trigger] self.changes@[k].0 <= self.version
    }

    /// What a well-formed book's view keeps: hrefs strictly sorted, no
    /// change and no token validity after the current version.
    pub proof fn lemma_view_facts(&self)
        requires
            self.well_formed(),
        ensures
            book_invariant(self@),
    {
        assert forall|k: int| 0 <= k < self@.changes.len() implies #[trigger] self@.changes[k].0
            <= self@.version by {
            assert(self@.changes[k].0 == self.changes@[k].0 as nat);
        }
    }

    /// An empty book for `collection`.
    pub fn new(collection: Collection) -> (r: Self)
        ensures
            r.well_formed(),
            r@.url == collection.addressbook_url@,
            r@.host == collection.discovered_host@,
            r@.supports_sync_collection == collection.supports_sync_collection,
            r@.cards.len() == 0,
            r@.version == 0,
            r@.changes.len() == 0,
            r@.valid_from == 0,
            r@.writes.len() == 0,
            !r@.omit_etag_on_put,
            r@.failures.len() == 0,
    {
        let r = InMemoryAddressBook {
            collection,
            cards: Vec::new(),
            version: 0,
            changes: Vec::new(),
            valid_from: 0,
            writes: Vec::new(),
            omit_etag_on_put: false,
            failures: VecDeque::new(),
        };
        assert(hrefs(stored_views(r.cards@)) =~= Seq::<Seq<char>>::empty());
        r
    }

    /// The index of the card under `href`.
    fn find(&self, href: &Href) -> (r: Option<usize>)
        ensures
            match r {
                Some(i) => find_from(self@.cards, href@, 0) == i as int && i < self.cards.len(),
                None => find_from(self@.cards, href@, 0) == -1,
            },
    {
        let ghost cs = self@.cards;
        let mut i: usize = 0;
        while i < self.cards.len()
            invariant
                i <= self.cards.len(),
                cs == stored_views(self.cards@),
                find_from(cs, href@, i as int) == find_from(cs, href@, 0),
            decreases self.cards.len() - i,
        {
            assert(cs[i as int] == self.cards[i as int]@);
            if self.cards[i].href.same(href) {
                return Some(i);
            }
            i += 1;
        }
        None
    }

    /// The stored ETag and body for `href`.
    pub fn card(&self, href: &Href) -> (r: Option<(ETag, Vec<u8>)>)
        ensures
            match (r, lookup(self@.cards, href@)) {
                (Some((e, b)), Some(c)) => e@ == c.etag && b@ == c.body,
                (None, None) => true,
                _ => false,
            },
    {
        match self.find(href) {
            Some(i) => {
                let c = &self.cards[i];
                assert(self@.cards[i as int] == c@);
                Some((c.etag.copy(), copy_bytes(c.body.as_slice())))
            },
            None => None,
        }
    }

    /// Every `put` and `delete` the code under test attempted, in order.
    pub fn writes(&self) -> (r: Vec<Write>)
        ensures
            write_views(r@) == self@.writes,
    {
        let ghost ws = self@.writes;
        let mut out: Vec<Write> = Vec::new();
        let mut i: usize = 0;
        while i < self.writes.len()
            invariant
                i <= self.writes.len(),
                ws == write_views(self.writes@),
                write_views(out@) == ws.take(i as int),
            decreases self.writes.len() - i,
        {
            let w = self.writes[i].copy();
            let ghost before = write_views(out@);
            let ghost wv = w@;
            out.push(w);
            assert(write_views(out@) =~= before.push(wv));
            assert(ws.take(i + 1) =~= ws.take(i as int).push(ws[i as int]));
            i += 1;
        }
        assert(ws.take(self.writes.len() as int) == ws);
        out
    }

    /// When on, successful `put`s store the card but return no ETag, like a
    /// server that omits the `ETag` header.
    pub fn omit_etag_on_put(&mut self, omit: bool)
        requires
            old(self).well_formed(),
        ensures
            final(self).well_formed(),
            final(self)@ == (BookView { omit_etag_on_put: omit, ..old(self)@ }),
    {
        self.omit_etag_on_put = omit;
    }

    /// Fails the next call of `op` with `error`. Queued failures are consumed
    /// one per matching call, in order.
    pub fn fail_next(&mut self, op: Op, error: AddressBookError)
        requires
            old(self).well_formed(),
        ensures
            final(self).well_formed(),
            final(self)@ == queued(old(self)@, op, error),
    {
        self.failures.push_back((op, error));
    }

    /// Rejects every sync token issued so far. Tokens issued afterwards work.
    pub fn expire_tokens(&mut self)
        requires
            old(self).well_formed(),
            old(self)@.version < u64::MAX,
        ensures
            final(self).well_formed(),
            final(self)@ == tokens_expired(old(self)@),
    {
        self.version = self.version + 1;
        self.valid_from = self.version;
    }

    /// When false, `discover` reports no `sync-collection` support and
    /// `changes_since` fails with a permanent error.
    pub fn set_supports_sync_collection(&mut self, supported: bool)
        requires
            old(self).well_formed(),
        ensures
            final(self).well_formed(),
            final(self)@ == (BookView { supports_sync_collection: supported, ..old(self)@ }),
    {
        self.collection.supports_sync_collection = supported;
    }
}


fn etag_for(version: u64) -> (r: ETag)
    ensures
        r@ == etag_text(version as nat),
{
    let mut text: Vec<char> = Vec::new();
    text.push('"');
    let digits = crate::text::decimal_chars(version);
    crate::text::append_chars(&mut text, &digits);
    text.push('"');
    assert(text@ =~= etag_text(version as nat));
    ETag::new(crate::text::string_of(&text))
}

impl InMemoryAddressBook {
    /// Stores `body` under `href` as a new version; returns its ETag.
    fn store(&mut self, href: Href, body: Vec<u8>) -> (r: ETag)
        requires
            old(self).well_formed(),
            old(self)@.version < u64::MAX,
        ensures
            final(self).well_formed(),
            final(self)@ == stored(old(self)@, href@, body@),
            r@ == etag_text(final(self)@.version),
    {
        let ghost b0 = self@;
        let ghost cs = self@.cards;
        let ghost h = hrefs(cs);
        self.version = self.version + 1;
        let etag = etag_for(self.version);
        let ghost entry = StoredView { href: href@, etag: etag@, body: body@ };
        let hv = crate::text::chars_of(href.as_str());
        let mut i: usize = 0;
        while i < self.cards.len() && !self.cards[i].href.same(&href)
            && !crate::vcard::order::str_lt_exec(&hv, &crate::text::chars_of(self.cards[i].href.as_str()))
            invariant
                i <= self.cards.len(),
                cs == stored_views(self.cards@),
                h == hrefs(cs),
                hv@ == href@,
                unique_pos_from(h, href@, i as int) == unique_pos_from(h, href@, 0),
            decreases self.cards.len() - i,
        {
            assert(h[i as int] == self.cards[i as int].href@);
            i += 1;
        }
        if i < self.cards.len() {
            assert(h[i as int] == self.cards[i as int].href@);
        }
        let ghost version = self.version;
        let key = href.copy();
        if i < self.cards.len() && self.cards[i].href.same(&href) {
            self.cards.set(i, Stored { href, etag: etag.copy(), body });
            assert(stored_views(self.cards@) =~= cs.update(i as int, entry));
        } else {
            self.cards.insert(i, Stored { href, etag: etag.copy(), body });
            assert(stored_views(self.cards@) =~= cs.insert(i as int, entry));
        }
        assert(stored_views(self.cards@) == put_card(cs, entry));
        proof {
            lemma_put_card(cs, entry, entry.href);
        }
        let ghost before = change_views(self.changes@);
        self.changes.push((self.version, key));
        assert(change_views(self.changes@) =~= before.push((version as nat, href@)));
        etag
    }

    /// Deletes the card under `href`; returns whether there was one.
    fn remove(&mut self, href: &Href) -> (r: bool)
        requires
            old(self).well_formed(),
            lookup(old(self)@.cards, href@) is Some ==> old(self)@.version < u64::MAX,
        ensures
            final(self).well_formed(),
            r == (lookup(old(self)@.cards, href@) is Some),
            final(self)@ == removed(old(self)@, href@),
    {
        let ghost cs = self@.cards;
        match self.find(href) {
            None => false,
            Some(i) => {
                let _gone = self.cards.remove(i);
                assert(stored_views(self.cards@) =~= cs.remove(i as int));
                proof {
                    lemma_remove_card(cs, href@, href@);
                }
                self.version = self.version + 1;
                let ghost before = change_views(self.changes@);
                let ghost version = self.version;
                self.changes.push((self.version, href.copy()));
                assert(change_views(self.changes@) =~= before.push((version as nat, href@)));
                true
            },
        }
    }

    /// Consumes the queued failure for `op`, if any, and raises it.
    #[verifier::loop_isolation(false)]
    fn take_failure(&mut self, op: Op) -> (r: Result<(), Error>)
        requires
            old(self).well_formed(),
        ensures
            final(self).well_formed(),
            final(self)@ == after_failure(old(self)@, op),
            match injected(old(self)@, op) {
                Some(e) => r == Err::<(), Error>(e),
                None => r is Ok,
            },
    {
        let ghost fs = self.failures@;
        let mut i: usize = 0;
        while i < self.failures.len()
            invariant
                i <= self.failures.len(),
                fs == self.failures@,
                *self == *old(self),
                failure_pos_from(fs, op, i as int) == failure_pos(fs, op),
            decreases self.failures.len() - i,
        {
            if self.failures[i].0 == op {
                match self.failures.remove(i) {
                    Some((_, error)) => {
                        return Err(Error::AddressBook(error));
                    },
                    None => {
                        return vstd::pervasive::unreached();
                    },
                }
            }
            i += 1;
        }
        Ok(())
    }

    /// Creates or replaces a card as the user or the other client would.
    /// Returns its new ETag. Not recorded in `writes`.
    pub fn external_put(&mut self, href: Href, body: Vec<u8>) -> (r: ETag)
        requires
            old(self).well_formed(),
            old(self)@.version < u64::MAX,
        ensures
            final(self).well_formed(),
            final(self)@ == stored(old(self)@, href@, body@),
            r@ == etag_text(final(self)@.version),
    {
        self.store(href, body)
    }

    /// Deletes a card as the user or the other client would. Returns whether
    /// it existed. Not recorded in `writes`.
    pub fn external_delete(&mut self, href: &Href) -> (r: bool)
        requires
            old(self).well_formed(),
            lookup(old(self)@.cards, href@) is Some ==> old(self)@.version < u64::MAX,
        ensures
            final(self).well_formed(),
            r == (lookup(old(self)@.cards, href@) is Some),
            final(self)@ == removed(old(self)@, href@),
    {
        self.remove(href)
    }
}


// ---------------------------------------------------------------------------
// The address book operations
// ---------------------------------------------------------------------------

/// A change set as values.
pub struct DeltaView {
    pub changed: Seq<(Seq<char>, Seq<char>)>,
    pub removed: Seq<Seq<char>>,
    pub token: Seq<char>,
}

pub open spec fn pair_views(v: Seq<(Href, ETag)>) -> Seq<(Seq<char>, Seq<char>)> {
    v.map_values(|p: (Href, ETag)| (p.0@, p.1@))
}

pub open spec fn href_views(v: Seq<Href>) -> Seq<Seq<char>> {
    v.map_values(|h: Href| h@)
}

pub open spec fn delta_view(c: ChangeSet) -> DeltaView {
    DeltaView { changed: pair_views(c.changed@), removed: href_views(c.removed@), token: c.token@ }
}

/// A `changes_since` answer as values: `None` for a rejected token.
pub open spec fn changes_view(c: Changes) -> Option<DeltaView> {
    match c {
        Changes::Delta(d) => Some(delta_view(d)),
        Changes::TokenInvalid => None,
    }
}

/// Every stored card's href and ETag, in href order.
pub open spec fn listing(cards: Seq<StoredView>) -> Seq<(Seq<char>, Seq<char>)> {
    cards.map_values(|c: StoredView| (c.href, c.etag))
}

/// The hrefs changed after version `since`, in order of change.
pub open spec fn later_hrefs(changes: Seq<(nat, Seq<char>)>, since: nat) -> Seq<Seq<char>>
    decreases changes.len(),
{
    if changes.len() == 0 {
        seq![]
    } else if changes.last().0 > since {
        later_hrefs(changes.drop_last(), since).push(changes.last().1)
    } else {
        later_hrefs(changes.drop_last(), since)
    }
}

/// The touched hrefs `t` split into those still stored (with their ETags)
/// and those gone.
pub open spec fn split_touched(cards: Seq<StoredView>, t: Seq<Seq<char>>) -> (
    Seq<(Seq<char>, Seq<char>)>,
    Seq<Seq<char>>,
)
    decreases t.len(),
{
    if t.len() == 0 {
        (seq![], seq![])
    } else {
        let r = split_touched(cards, t.drop_last());
        match lookup(cards, t.last()) {
            Some(c) => (r.0.push((t.last(), c.etag)), r.1),
            None => (r.0, r.1.push(t.last())),
        }
    }
}

/// The version a token was issued at, if it is one of this book's tokens
/// and still valid.
pub open spec fn token_version_spec(t: Seq<char>, valid_from: nat, version: nat) -> Option<nat> {
    let prefix = "mem-sync-"@;
    if t.len() >= prefix.len() && t.take(prefix.len() as int) == prefix {
        match crate::config::parse_u64_spec(t.skip(prefix.len() as int)) {
            Ok(v) => if valid_from <= v && v <= version {
                Some(v as nat)
            } else {
                None
            },
            Err(_) => None,
        }
    } else {
        None
    }
}

/// What `changes_since` answers on a book that supports it: the full
/// listing for no token; a rejected token; or, for a token issued at `v`,
/// every href changed after `v`, split into changed (still stored) and
/// removed, in href order. A fresh token comes with every change set.
pub open spec fn expected_changes(b: BookView, token: Option<Seq<char>>) -> Option<DeltaView> {
    match token {
        None => Some(DeltaView { changed: listing(b.cards), removed: seq![], token: token_text(b.version) }),
        Some(t) => match token_version_spec(t, b.valid_from, b.version) {
            None => None,
            Some(since) => {
                let parts = split_touched(b.cards, sort_unique(later_hrefs(b.changes, since)));
                Some(DeltaView { changed: parts.0, removed: parts.1, token: token_text(b.version) })
            },
        },
    }
}

pub open spec fn fetched_views(v: Seq<FetchedCard>) -> Seq<StoredView> {
    v.map_values(|f: FetchedCard| StoredView { href: f.href@, etag: f.etag@, body: f.body@ })
}

/// The cards stored under `hrefs` (each with the requested href), and the
/// hrefs with none, both in request order.
pub open spec fn multiget_spec(cards: Seq<StoredView>, hrefs: Seq<Seq<char>>) -> (
    Seq<StoredView>,
    Seq<Seq<char>>,
)
    decreases hrefs.len(),
{
    if hrefs.len() == 0 {
        (seq![], seq![])
    } else {
        let r = multiget_spec(cards, hrefs.drop_last());
        match lookup(cards, hrefs.last()) {
            Some(c) => (r.0.push(StoredView { href: hrefs.last(), etag: c.etag, body: c.body }), r.1),
            None => (r.0, r.1.push(hrefs.last())),
        }
    }
}

/// Whether a put with the guard `guard` may write `href`: `If-Match` needs
/// the stored ETag, `If-None-Match` needs no stored card.
pub open spec fn put_allowed(cards: Seq<StoredView>, href: Seq<char>, guard: Option<Seq<char>>) -> bool {
    match guard {
        Some(e) => lookup(cards, href) is Some && lookup(cards, href)->Some_0.etag == e,
        None => lookup(cards, href) is None,
    }
}

/// Whether a delete guarded by `if_match` is refused: a stored card whose
/// ETag differs.
pub open spec fn delete_refused(cards: Seq<StoredView>, href: Seq<char>, if_match: Option<Seq<char>>) -> bool {
    match (lookup(cards, href), if_match) {
        (Some(c), Some(e)) => c.etag != e,
        _ => false,
    }
}

pub open spec fn is_precondition_failed(e: Error, href: Seq<char>) -> bool {
    match e {
        Error::AddressBook(AddressBookError::PreconditionFailed { href: h }) => h@ == href,
        _ => false,
    }
}

impl InMemoryAddressBook {
    /// The sync token for the current version.
    fn token(&self) -> (r: SyncToken)
        ensures
            r@ == token_text(self@.version),
    {
        let mut text = String::from_str("mem-sync-");
        let digits = crate::text::decimal_chars(self.version);
        text.append(crate::text::string_of(&digits).as_str());
        SyncToken::new(text)
    }

    /// The version `token` was issued at, if the token is still valid.
    fn token_version(&self, token: &SyncToken) -> (r: Option<u64>)
        ensures
            match (r, token_version_spec(token@, self@.valid_from, self@.version)) {
                (Some(a), Some(b)) => a == b,
                (None, None) => true,
                _ => false,
            },
    {
        let t = crate::text::chars_of(token.as_str());
        let prefix = crate::text::chars_of("mem-sync-");
        if t.len() < prefix.len() {
            return None;
        }
        let head = crate::text::slice_range(&t, 0, prefix.len());
        assert(head@ == t@.take(prefix@.len() as int));
        if !crate::text::chars_eq(&head, &prefix) {
            return None;
        }
        let rest = crate::text::slice_range(&t, prefix.len(), t.len());
        assert(rest@ == t@.skip(prefix@.len() as int));
        match crate::config::parse_u64(&rest) {
            Ok(v) => if self.valid_from <= v && v <= self.version {
                Some(v)
            } else {
                None
            },
            Err(_) => None,
        }
    }

    /// The collection, unless a failure was queued for discovery.
    pub fn discover(&mut self) -> (r: Result<Collection, Error>)
        requires
            old(self).well_formed(),
        ensures
            final(self).well_formed(),
            final(self)@ == after_failure(old(self)@, Op::Discover),
            match injected(old(self)@, Op::Discover) {
                Some(e) => r == Err::<Collection, Error>(e),
                None => r matches Ok(c) && c.addressbook_url@ == old(self)@.url
                    && c.discovered_host@ == old(self)@.host && c.supports_sync_collection
                    == old(self)@.supports_sync_collection,
            },
    {
        match self.take_failure(Op::Discover) {
            Err(e) => Err(e),
            Ok(()) => Ok(self.collection.copy()),
        }
    }

    fn listing_exec(&self) -> (r: Vec<(Href, ETag)>)
        ensures
            pair_views(r@) == listing(self@.cards),
    {
        let ghost cs = self@.cards;
        let mut out: Vec<(Href, ETag)> = Vec::new();
        let mut i: usize = 0;
        while i < self.cards.len()
            invariant
                i <= self.cards.len(),
                cs == stored_views(self.cards@),
                pair_views(out@) == listing(cs.take(i as int)),
            decreases self.cards.len() - i,
        {
            let c = &self.cards[i];
            let ghost before = pair_views(out@);
            out.push((c.href.copy(), c.etag.copy()));
            assert(pair_views(out@) =~= before.push((c.href@, c.etag@)));
            assert(cs[i as int] == c@);
            assert(listing(cs.take(i + 1)) =~= listing(cs.take(i as int)).push((c.href@, c.etag@)));
            i += 1;
        }
        assert(cs.take(self.cards.len() as int) == cs);
        out
    }

    /// Every stored href with its ETag, in href order.
    pub fn list_etags(&mut self) -> (r: Result<Vec<(Href, ETag)>, Error>)
        requires
            old(self).well_formed(),
        ensures
            final(self).well_formed(),
            final(self)@ == after_failure(old(self)@, Op::ListEtags),
            match injected(old(self)@, Op::ListEtags) {
                Some(e) => r == Err::<Vec<(Href, ETag)>, Error>(e),
                None => r matches Ok(l) && pair_views(l@) == listing(old(self)@.cards),
            },
    {
        match self.take_failure(Op::ListEtags) {
            Err(e) => Err(e),
            Ok(()) => Ok(self.listing_exec()),
        }
    }

    /// The cards stored under `hrefs`, and the hrefs with none.
    pub fn multiget(&mut self, hrefs: &[Href]) -> (r: Result<MultigetResult, Error>)
        requires
            old(self).well_formed(),
        ensures
            final(self).well_formed(),
            final(self)@ == after_failure(old(self)@, Op::Multiget),
            match injected(old(self)@, Op::Multiget) {
                Some(e) => r == Err::<MultigetResult, Error>(e),
                None => r matches Ok(m) && fetched_views(m.found@) == multiget_spec(
                    old(self)@.cards,
                    href_views(hrefs@),
                ).0 && href_views(m.missing@) == multiget_spec(old(self)@.cards, href_views(hrefs@)).1,
            },
    {
        match self.take_failure(Op::Multiget) {
            Err(e) => Err(e),
            Ok(()) => {
                let ghost cs = self@.cards;
                let ghost hs = href_views(hrefs@);
                let mut result = MultigetResult::default();
                let mut i: usize = 0;
                assert(fetched_views(result.found@) =~= Seq::<StoredView>::empty());
                assert(href_views(result.missing@) =~= Seq::<Seq<char>>::empty());
                while i < hrefs.len()
                    invariant
                        i <= hrefs.len(),
                        cs == self@.cards,
                        hs == href_views(hrefs@),
                        fetched_views(result.found@) == multiget_spec(cs, hs.take(i as int)).0,
                        href_views(result.missing@) == multiget_spec(cs, hs.take(i as int)).1,
                    decreases hrefs.len() - i,
                {
                    let href = &hrefs[i];
                    assert(hs.take(i + 1).drop_last() == hs.take(i as int));
                    assert(hs.take(i + 1).last() == href@);
                    match self.find(href) {
                        Some(p) => {
                            let c = &self.cards[p];
                            assert(cs[p as int] == c@);
                            let fetched = FetchedCard {
                                href: href.copy(),
                                etag: c.etag.copy(),
                                body: copy_bytes(c.body.as_slice()),
                            };
                            let ghost before = fetched_views(result.found@);
                            result.found.push(fetched);
                            assert(fetched_views(result.found@) =~= before.push(
                                StoredView { href: href@, etag: c@.etag, body: c@.body },
                            ));
                        },
                        None => {
                            let ghost before = href_views(result.missing@);
                            result.missing.push(href.copy());
                            assert(href_views(result.missing@) =~= before.push(href@));
                        },
                    }
                    i += 1;
                }
                assert(hs.take(hrefs.len() as int) == hs);
                Ok(result)
            },
        }
    }
}


/// The book after a put of `body` under `href` guarded by `guard` is
/// recorded as attempted.
pub open spec fn put_recorded(b: BookView, href: Seq<char>, guard: Option<Seq<char>>, body: Seq<u8>) -> BookView {
    BookView { writes: b.writes.push(WriteView::Put { href, if_match: guard, body }), ..b }
}

/// The book after a delete of `href` guarded by `if_match` is recorded as
/// attempted.
pub open spec fn delete_recorded(b: BookView, href: Seq<char>, if_match: Option<Seq<char>>) -> BookView {
    BookView { writes: b.writes.push(WriteView::Delete { href, if_match }), ..b }
}

fn copy_guard(p: &Precondition) -> (r: Precondition)
    ensures
        guard_view(r) == guard_view(*p),
{
    match p {
        Precondition::IfMatch(e) => Precondition::IfMatch(e.copy()),
        Precondition::IfNoneMatch => Precondition::IfNoneMatch,
    }
}

impl InMemoryAddressBook {
    /// Writes `body` under `href` if `precondition` holds. Every attempt is
    /// recorded, failed ones included; a failed attempt changes no card. The
    /// new ETag comes back unless the book omits it.
    pub fn put(&mut self, href: &Href, body: &[u8], precondition: Precondition) -> (r: Result<Option<ETag>, Error>)
        requires
            old(self).well_formed(),
            injected(old(self)@, Op::Put) is None && put_allowed(
                old(self)@.cards,
                href@,
                guard_view(precondition),
            ) ==> old(self)@.version < u64::MAX,
        ensures
            final(self).well_formed(),
            ({
                let b1 = put_recorded(old(self)@, href@, guard_view(precondition), body@);
                match injected(old(self)@, Op::Put) {
                    Some(e) => r == Err::<Option<ETag>, Error>(e) && final(self)@ == after_failure(b1, Op::Put),
                    None => if !put_allowed(old(self)@.cards, href@, guard_view(precondition)) {
                        r matches Err(e) && is_precondition_failed(e, href@) && final(self)@ == b1
                    } else {
                        final(self)@ == stored(b1, href@, body@) && match r {
                            Ok(Some(t)) => !b1.omit_etag_on_put && t@ == etag_text(final(self)@.version),
                            Ok(None) => b1.omit_etag_on_put,
                            Err(_) => false,
                        }
                    },
                }
            }),
    {
        let ghost b0 = self@;
        let ghost before = write_views(self.writes@);
        let recorded = Write::Put { href: href.copy(), precondition: copy_guard(&precondition), body: copy_bytes(body) };
        let ghost wv = recorded@;
        self.writes.push(recorded);
        assert(write_views(self.writes@) =~= before.push(wv));
        assert(self@ == put_recorded(b0, href@, guard_view(precondition), body@));
        match self.take_failure(Op::Put) {
            Err(e) => {
                return Err(e);
            },
            Ok(()) => {},
        }
        let current = self.find(href);
        let satisfied = match &precondition {
            Precondition::IfMatch(expected) => match current {
                Some(i) => {
                    assert(self@.cards[i as int] == self.cards[i as int]@);
                    self.cards[i].etag.same(expected)
                },
                None => false,
            },
            Precondition::IfNoneMatch => current.is_none(),
        };
        if !satisfied {
            return Err(Error::AddressBook(AddressBookError::PreconditionFailed { href: href.copy() }));
        }
        let etag = self.store(href.copy(), copy_bytes(body));
        if self.omit_etag_on_put {
            Ok(None)
        } else {
            Ok(Some(etag))
        }
    }

    /// Deletes the card under `href` if `if_match` (when given) is its ETag.
    /// Every attempt is recorded; deleting a missing card succeeds.
    pub fn delete(&mut self, href: &Href, if_match: Option<&ETag>) -> (r: Result<(), Error>)
        requires
            old(self).well_formed(),
            injected(old(self)@, Op::Delete) is None && lookup(old(self)@.cards, href@) is Some
                && !delete_refused(
                old(self)@.cards,
                href@,
                match if_match {
                    Some(e) => Some(e@),
                    None => None,
                },
            ) ==> old(self)@.version < u64::MAX,
        ensures
            final(self).well_formed(),
            ({
                let guard = match if_match {
                    Some(e) => Some(e@),
                    None => None,
                };
                let b1 = delete_recorded(old(self)@, href@, guard);
                match injected(old(self)@, Op::Delete) {
                    Some(e) => r == Err::<(), Error>(e) && final(self)@ == after_failure(b1, Op::Delete),
                    None => if delete_refused(old(self)@.cards, href@, guard) {
                        r matches Err(e) && is_precondition_failed(e, href@) && final(self)@ == b1
                    } else {
                        r is Ok && final(self)@ == removed(b1, href@)
                    },
                }
            }),
    {
        let ghost b0 = self@;
        let ghost before = write_views(self.writes@);
        let recorded = Write::Delete {
            href: href.copy(),
            if_match: match if_match {
                Some(e) => Some(e.copy()),
                None => None,
            },
        };
        let ghost wv = recorded@;
        self.writes.push(recorded);
        assert(write_views(self.writes@) =~= before.push(wv));
        match self.take_failure(Op::Delete) {
            Err(e) => {
                return Err(e);
            },
            Ok(()) => {},
        }
        match self.find(href) {
            None => {
                return Ok(());
            },
            Some(i) => {
                assert(self@.cards[i as int] == self.cards[i as int]@);
                match if_match {
                    Some(expected) => {
                        if !self.cards[i].etag.same(expected) {
                            return Err(Error::AddressBook(AddressBookError::PreconditionFailed { href: href.copy() }));
                        }
                    },
                    None => {},
                }
            },
        }
        self.remove(href);
        Ok(())
    }
}


impl InMemoryAddressBook {
    /// The hrefs changed after version `since`, in order of change.
    fn later_hrefs_exec(&self, since: u64) -> (r: Vec<Vec<char>>)
        ensures
            rows(r@) == later_hrefs(self@.changes, since as nat),
    {
        let ghost ch = self@.changes;
        let mut out: Vec<Vec<char>> = Vec::new();
        let mut i: usize = 0;
        while i < self.changes.len()
            invariant
                i <= self.changes.len(),
                ch == change_views(self.changes@),
                rows(out@) == later_hrefs(ch.take(i as int), since as nat),
            decreases self.changes.len() - i,
        {
            assert(ch.take(i + 1).drop_last() == ch.take(i as int));
            assert(ch.take(i + 1).last() == (self.changes@[i as int].0 as nat, self.changes@[i as int].1@));
            if self.changes[i].0 > since {
                let h = crate::text::chars_of(self.changes[i].1.as_str());
                let ghost before = rows(out@);
                let ghost hv = h@;
                out.push(h);
                assert(rows(out@) =~= before.push(hv));
            }
            i += 1;
        }
        assert(ch.take(self.changes.len() as int) == ch);
        out
    }

    /// What changed since `token` (every card for no token), with a fresh
    /// token; `TokenInvalid` for a token that is not one of this book's or
    /// has expired.
    pub fn changes_since(&mut self, token: Option<&SyncToken>) -> (r: Result<Changes, Error>)
        requires
            old(self).well_formed(),
        ensures
            final(self).well_formed(),
            final(self)@ == after_failure(old(self)@, Op::ChangesSince),
            match injected(old(self)@, Op::ChangesSince) {
                Some(e) => r == Err::<Changes, Error>(e),
                None => if !old(self)@.supports_sync_collection {
                    r matches Err(Error::AddressBook(AddressBookError::Permanent(m)))
                        && m@ == "collection does not support sync-collection"@
                } else {
                    r matches Ok(c) && changes_view(c) == expected_changes(
                        old(self)@,
                        match token {
                            Some(t) => Some(t@),
                            None => None,
                        },
                    )
                },
            },
    {
        match self.take_failure(Op::ChangesSince) {
            Err(e) => {
                return Err(e);
            },
            Ok(()) => {},
        }
        if !self.collection.supports_sync_collection {
            return Err(
                Error::AddressBook(
                    AddressBookError::Permanent(
                        String::from_str("collection does not support sync-collection"),
                    ),
                ),
            );
        }
        let t = match token {
            None => {
                let changed = self.listing_exec();
                let removed: Vec<Href> = Vec::new();
                assert(href_views(removed@) =~= Seq::<Seq<char>>::empty());
                return Ok(Changes::Delta(ChangeSet { changed, removed, token: self.token() }));
            },
            Some(t) => t,
        };
        let since = match self.token_version(t) {
            None => {
                return Ok(Changes::TokenInvalid);
            },
            Some(v) => v,
        };
        let later = self.later_hrefs_exec(since);
        let touched = crate::vcard::order::sort_unique_exec(&later);
        let ghost tv = rows(touched@);
        let ghost cs = self@.cards;
        let mut changed: Vec<(Href, ETag)> = Vec::new();
        let mut removed: Vec<Href> = Vec::new();
        let mut i: usize = 0;
        assert(pair_views(changed@) =~= Seq::<(Seq<char>, Seq<char>)>::empty());
        assert(href_views(removed@) =~= Seq::<Seq<char>>::empty());
        while i < touched.len()
            invariant
                i <= touched.len(),
                tv == rows(touched@),
                cs == self@.cards,
                pair_views(changed@) == split_touched(cs, tv.take(i as int)).0,
                href_views(removed@) == split_touched(cs, tv.take(i as int)).1,
            decreases touched.len() - i,
        {
            assert(tv.take(i + 1).drop_last() == tv.take(i as int));
            assert(tv.take(i + 1).last() == touched@[i as int]@);
            let href = Href::new(crate::text::string_of(&touched[i]));
            match self.find(&href) {
                Some(p) => {
                    assert(cs[p as int] == self.cards[p as int]@);
                    let ghost before = pair_views(changed@);
                    let etag = self.cards[p].etag.copy();
                    let ghost ev = etag@;
                    changed.push((href, etag));
                    assert(pair_views(changed@) =~= before.push((touched@[i as int]@, ev)));
                },
                None => {
                    let ghost before = href_views(removed@);
                    removed.push(href);
                    assert(href_views(removed@) =~= before.push(touched@[i as int]@));
                },
            }
            i += 1;
        }
        assert(tv.take(touched.len() as int) == tv);
        Ok(Changes::Delta(ChangeSet { changed, removed, token: self.token() }))
    }
}

impl Default for InMemoryAddressBook {
    /// A book for a sync-capable collection at a fixed test URL.
    fn default() -> (r: Self)
        ensures
            r.well_formed(),
            r@.url == "https://carddav.example.test/addressbooks/user/default/"@,
            r@.host == "carddav.example.test"@,
            r@.supports_sync_collection,
            r@.cards.len() == 0,
            r@.version == 0,
            r@.changes.len() == 0,
            r@.valid_from == 0,
            r@.writes.len() == 0,
            !r@.omit_etag_on_put,
            r@.failures.len() == 0,
    {
        InMemoryAddressBook::new(
            Collection {
                addressbook_url: String::from_str("https://carddav.example.test/addressbooks/user/default/"),
                discovered_host: String::from_str("carddav.example.test"),
                supports_sync_collection: true,
            },
        )
    }
}


// ---------------------------------------------------------------------------
// Laws of the book
// ---------------------------------------------------------------------------

/// A read gives back what a write wrote: after storing `body` under `href`,
/// the href reads back that body with the new version's ETag, and every
/// other href reads what it did before.
pub proof fn lemma_read_after_store(b: BookView, href: Seq<char>, body: Seq<u8>, other: Seq<char>)
    requires
        book_invariant(b),
        b.version < u64::MAX,
    ensures
        book_invariant(stored(b, href, body)),
        lookup(stored(b, href, body).cards, href) == Some(
            StoredView { href, etag: etag_text(b.version + 1), body },
        ),
        other != href ==> lookup(stored(b, href, body).cards, other) == lookup(b.cards, other),
{
    let c = StoredView { href, etag: etag_text(b.version + 1), body };
    lemma_put_card(b.cards, c, other);
    let a = stored(b, href, body);
    assert forall|k: int| 0 <= k < a.changes.len() implies #[trigger] a.changes[k].0 <= a.version by {
        if k < b.changes.len() {
            assert(a.changes[k] == b.changes[k]);
        }
    }
}

/// After a delete, the href reads nothing and every other href reads what
/// it did before.
pub proof fn lemma_read_after_remove(b: BookView, href: Seq<char>, other: Seq<char>)
    requires
        book_invariant(b),
        lookup(b.cards, href) is Some ==> b.version < u64::MAX,
    ensures
        book_invariant(removed(b, href)),
        lookup(removed(b, href).cards, href) is None,
        other != href ==> lookup(removed(b, href).cards, other) == lookup(b.cards, other),
{
    lemma_remove_card(b.cards, href, other);
    if lookup(b.cards, href) is Some {
        let a = removed(b, href);
        assert forall|k: int| 0 <= k < a.changes.len() implies #[trigger] a.changes[k].0 <= a.version by {
            if k < b.changes.len() {
                assert(a.changes[k] == b.changes[k]);
            }
        }
    } else {
        lemma_find_from(b.cards, href, 0);
    }
}

proof fn lemma_no_later_hrefs(changes: Seq<(nat, Seq<char>)>, since: nat)
    requires
        forall|k: int| 0 <= k < changes.len() ==> #[trigger] changes[k].0 <= since,
    ensures
        later_hrefs(changes, since).len() == 0,
    decreases changes.len(),
{
    if changes.len() > 0 {
        assert(changes.last() == changes[changes.len() - 1]);
        assert forall|k: int| 0 <= k < changes.drop_last().len() implies #[trigger] changes.drop_last()[k].0
            <= since by {
            assert(changes.drop_last()[k] == changes[k]);
        }
        lemma_no_later_hrefs(changes.drop_last(), since);
    }
}

/// A token issued now is accepted, and until the next change it lists
/// nothing: asking with it gives an empty change set and the same token.
pub proof fn lemma_fresh_token_is_quiet(b: BookView)
    requires
        book_invariant(b),
    ensures
        token_version_spec(token_text(b.version), b.valid_from, b.version) == Some(b.version),
        expected_changes(b, Some(token_text(b.version))) == Some(
            DeltaView { changed: seq![], removed: seq![], token: token_text(b.version) },
        ),
{
    let t = token_text(b.version);
    let prefix = "mem-sync-"@;
    assert(t.take(prefix.len() as int) =~= prefix);
    assert(t.skip(prefix.len() as int) =~= decimal(b.version));
    crate::config::lemma_parse_decimal(b.version);
    lemma_no_later_hrefs(b.changes, b.version);
    let l = later_hrefs(b.changes, b.version);
    assert(l =~= Seq::<Seq<char>>::empty());
    assert(sort_unique(l) =~= Seq::<Seq<char>>::empty());
}


// ---------------------------------------------------------------------------
// Laws over sequences of calls
// ---------------------------------------------------------------------------

proof fn lemma_failure_pos_push(
    fs: Seq<(Op, AddressBookError)>,
    x: (Op, AddressBookError),
    op: Op,
    i: int,
)
    requires
        0 <= i <= fs.len(),
    ensures
        failure_pos_from(fs.push(x), op, i) == if failure_pos_from(fs, op, i) >= 0 {
            failure_pos_from(fs, op, i)
        } else if x.0 == op {
            fs.len() as int
        } else {
            -1
        },
    decreases fs.len() - i,
{
    if i < fs.len() {
        assert(fs.push(x)[i] == fs[i]);
        lemma_failure_pos_push(fs, x, op, i + 1);
    } else {
        assert(fs.push(x)[i] == x);
        assert(failure_pos_from(fs.push(x), op, i + 1) == -1);
        assert(failure_pos_from(fs, op, i) == -1);
    }
}

/// A queued failure waits behind those already queued for its operation,
/// and no other operation sees it: the next call of any operation `other`
/// raises and consumes the earliest failure queued for `other`, which is the
/// new one only when none was queued for it before.
pub proof fn lemma_failures_in_order(b: BookView, op: Op, error: AddressBookError, other: Op)
    ensures
        injected(queued(b, op, error), other) == if injected(b, other) is Some {
            injected(b, other)
        } else if other == op {
            Some(Error::AddressBook(error))
        } else {
            None::<Error>
        },
        after_failure(queued(b, op, error), other) == if injected(b, other) is Some {
            queued(after_failure(b, other), op, error)
        } else if other == op {
            b
        } else {
            queued(b, op, error)
        },
{
    let fs = b.failures;
    lemma_failure_pos_push(fs, (op, error), other, 0);
    lemma_failure_pos(fs, other, 0);
    let p = failure_pos(fs, other);
    if p >= 0 {
        assert(fs.push((op, error))[p] == fs[p]);
        assert(fs.push((op, error)).remove(p) =~= fs.remove(p).push((op, error)));
    } else if other == op {
        assert(fs.push((op, error)).remove(fs.len() as int) =~= fs);
        assert(fs.push((op, error))[fs.len() as int] == (op, error));
    }
}

proof fn lemma_token_parses(v: nat)
    requires
        v <= u64::MAX,
    ensures
        token_text(v).take("mem-sync-"@.len() as int) == "mem-sync-"@,
        crate::config::parse_u64_spec(token_text(v).skip("mem-sync-"@.len() as int)) == Ok::<
            int,
            crate::config::NumberError,
        >(v as int),
{
    let t = token_text(v);
    let prefix = "mem-sync-"@;
    assert(t.take(prefix.len() as int) =~= prefix);
    assert(t.skip(prefix.len() as int) =~= decimal(v));
    crate::config::lemma_parse_decimal(v);
}

/// After the tokens expire, every token valid before is rejected, and so is
/// every token the book issued before; a token issued afterwards is
/// accepted.
pub proof fn lemma_expired_tokens_rejected(b: BookView, t: Seq<char>, v: nat)
    requires
        book_invariant(b),
        b.version < u64::MAX,
        v <= b.version,
    ensures
        token_version_spec(t, b.valid_from, b.version) is Some ==> expected_changes(
            tokens_expired(b),
            Some(t),
        ) is None,
        expected_changes(tokens_expired(b), Some(token_text(v))) is None,
        token_version_spec(
            token_text(tokens_expired(b).version),
            tokens_expired(b).valid_from,
            tokens_expired(b).version,
        ) == Some(tokens_expired(b).version),
{
    lemma_token_parses(v);
    lemma_token_parses(b.version + 1);
}

/// A touched href that is still stored is listed as changed with its
/// ETag; one that is gone is listed as removed.
proof fn lemma_split_touched_lists(cards: Seq<StoredView>, t: Seq<Seq<char>>, h: Seq<char>)
    requires
        t.contains(h),
    ensures
        lookup(cards, h) matches Some(c) ==> split_touched(cards, t).0.contains((h, c.etag)),
        lookup(cards, h) is None ==> split_touched(cards, t).1.contains(h),
    decreases t.len(),
{
    let r = split_touched(cards, t.drop_last());
    if t.last() == h {
        match lookup(cards, h) {
            Some(c) => {
                assert(split_touched(cards, t).0 == r.0.push((h, c.etag)));
                assert(split_touched(cards, t).0[r.0.len() as int] == (h, c.etag));
            },
            None => {
                assert(split_touched(cards, t).1 == r.1.push(h));
                assert(split_touched(cards, t).1[r.1.len() as int] == h);
            },
        }
    } else {
        let k = choose|k: int| 0 <= k < t.len() && t[k] == h;
        assert(t.drop_last()[k] == h);
        lemma_split_touched_lists(cards, t.drop_last(), h);
        let s2 = split_touched(cards, t);
        match lookup(cards, h) {
            Some(c) => {
                let j = choose|j: int| 0 <= j < r.0.len() && r.0[j] == (h, c.etag);
                match lookup(cards, t.last()) {
                    Some(d) => assert(s2.0[j] == r.0[j]),
                    None => assert(s2.0[j] == r.0[j]),
                }
            },
            None => {
                let j = choose|j: int| 0 <= j < r.1.len() && r.1[j] == h;
                match lookup(cards, t.last()) {
                    Some(d) => assert(s2.1[j] == r.1[j]),
                    None => assert(s2.1[j] == r.1[j]),
                }
            },
        }
    }
}

/// The delta since a still-valid token after one more change of `href`
/// names `href`.
proof fn lemma_change_listed(b: BookView, a: BookView, t: Seq<char>, href: Seq<char>)
    requires
        book_invariant(b),
        token_version_spec(t, b.valid_from, b.version) is Some,
        a.valid_from == b.valid_from,
        a.version == b.version + 1,
        a.changes == b.changes.push((a.version, href)),
    ensures
        token_version_spec(t, a.valid_from, a.version) == token_version_spec(
            t,
            b.valid_from,
            b.version,
        ),
        sort_unique(
            later_hrefs(a.changes, token_version_spec(t, b.valid_from, b.version)->Some_0),
        ).contains(href),
{
    let since = token_version_spec(t, b.valid_from, b.version)->Some_0;
    let l = later_hrefs(a.changes, since);
    assert(a.changes.drop_last() == b.changes);
    assert(a.changes.last() == (a.version, href));
    assert(l == later_hrefs(b.changes, since).push(href));
    assert(l[l.len() - 1] == href);
    crate::vcard::order::lemma_sort_unique(l);
}

/// A card put from outside gets an ETag the book never issued before, and
/// the delta since any token still valid lists it as changed with that
/// ETag.
pub proof fn lemma_external_put_listed(
    b: BookView,
    href: Seq<char>,
    body: Seq<u8>,
    t: Seq<char>,
    v: nat,
)
    requires
        book_invariant(b),
        b.version < u64::MAX,
    ensures
        v <= b.version ==> etag_text(v) != etag_text(b.version + 1),
        token_version_spec(t, b.valid_from, b.version) is Some ==> (expected_changes(
            stored(b, href, body),
            Some(t),
        ) matches Some(d) && d.changed.contains((href, etag_text(b.version + 1)))),
{
    if v <= b.version {
        crate::config::lemma_parse_decimal(v);
        crate::config::lemma_parse_decimal(b.version + 1);
        if etag_text(v) == etag_text(b.version + 1) {
            assert(decimal(v) =~= etag_text(v).subrange(1, etag_text(v).len() - 1));
            assert(decimal(b.version + 1) =~= etag_text(b.version + 1).subrange(
                1,
                etag_text(b.version + 1).len() - 1,
            ));
        }
    }
    if token_version_spec(t, b.valid_from, b.version) is Some {
        let a = stored(b, href, body);
        lemma_read_after_store(b, href, body, href);
        lemma_change_listed(b, a, t, href);
        let since = token_version_spec(t, b.valid_from, b.version)->Some_0;
        lemma_split_touched_lists(a.cards, sort_unique(later_hrefs(a.changes, since)), href);
    }
}

/// A card deleted from outside is listed as removed by the delta since any
/// token still valid.
pub proof fn lemma_external_delete_listed(b: BookView, href: Seq<char>, t: Seq<char>)
    requires
        book_invariant(b),
        b.version < u64::MAX,
        lookup(b.cards, href) is Some,
        token_version_spec(t, b.valid_from, b.version) is Some,
    ensures
        expected_changes(removed(b, href), Some(t)) matches Some(d) && d.removed.contains(href),
{
    let a = removed(b, href);
    lemma_read_after_remove(b, href, href);
    lemma_change_listed(b, a, t, href);
    let since = token_version_spec(t, b.valid_from, b.version)->Some_0;
    lemma_split_touched_lists(a.cards, sort_unique(later_hrefs(a.changes, since)), href);
}

} // verus!

# cardigan

Cardigan keeps an iCloud and a Fastmail CardDAV address book in step. This
crate is its core, written in Verus: vCard 3.0 handling and the rules the
sync daemon keeps its state by, each function stated by a contract and
proved.

## Layout

- `src/vcard/`: cards kept byte for byte with a lossless parse
  (`unfold`, `parser`, `card`, `escape`), the comparison-only canonical form
  and its SHA-256 hash (`canonical`, `order`), display identity and match
  keys (`identity`), embedded photos (`photo`), and the laws of the canonical
  form and of photo removal (`reorder`, `regroup`, `layout`, `removal`).
- `src/contact.rs`, `src/addressbook.rs`: identifiers, sides, and what an
  address book hands back.
- `src/state.rs`: spans and instants, capped exponential backoff, failure
  categories and failure records.
- `src/config.rs`: settings checked into a configuration.
- `src/sync.rs`: what the polling loop asks for next.
- `src/test_support.rs`: an in-memory address book with sync tokens.
- `src/error.rs`, `src/text.rs`: errors and their kinds; text helpers.
- `app/`: the daemon around the library: command line, configuration
  loading, logging and the async polling loop.
- `tests/`: tests of the library on concrete values.

## Main laws

- Reordering a card's properties, renaming its groups consistently, changing
  its line breaks or folding its lines leaves its canonical form unchanged.
- `REV`, `PRODID` (and `PHOTO` on request) never affect it.
- Removing a card's embedded photos leaves a card with the same UID, the
  other properties in order, and the same photo-excluding canonical form.
- A card hash written as hex reads back as itself.
- Backoff delays double from the base up to the cap and never shrink.

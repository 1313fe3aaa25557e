//! Cardigan: vCard 3.0 handling and sync-state rules for keeping two CardDAV
//! address books in step.

pub mod addressbook;
pub mod config;
pub mod contact;
pub mod error;
pub mod state;
pub mod sync;
pub mod test_support;
pub mod text;
pub mod vcard;

pub use error::{AddressBookError, Error, ErrorKind, RepositoryError, Wait};

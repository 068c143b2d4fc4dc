//! Structured URLs.
//!
//! A URL is a record of scheme, host, port, path, query and fragment. It is
//! read from a text with [`Url::from_str`] and written as a text with
//! [`Url::to_string`]; the record holds no text of the whole URL, and the path,
//! the query and the fragment hold plain texts, which are escaped only when
//! the URL is written.
//!
//! What each function returns is stated over texts as sequences of characters:
//! [`url::parse_url`] says what a text stands for and [`url::UrlView::text`]
//! what is written for a URL. [`round_trip::lemma_round_trip`] proves that a
//! URL that was read is read again from what is written for it.

pub mod host;
pub mod label;
pub mod path;
pub mod percent;
pub mod port;
pub mod query;
pub mod reading;
pub mod round_trip;
pub mod scheme;
pub mod text;
pub mod url;

pub use host::{Host, HostError};
pub use label::{Label, LabelError};
pub use query::Query;
pub use scheme::{Scheme, SchemeParsingError};
pub use url::{Url, UrlParsingError};

//! Extraction of localization entries from source text.
//!
//! Each line of a file is searched for a `FormattedMessage` invocation that
//! carries an `id` and a `defaultMessage` attribute; the captured pairs are
//! gathered into a dictionary keyed by identifier, where the entry seen last
//! wins, and the dictionary is rendered as a pretty-printed JSON object.
mod text;

pub mod grammar;
pub mod dictionary;
pub mod scan;

//! Typed values for the HTTP range-request header fields `Accept-Ranges`,
//! `Range` and `Content-Range` (RFC 7233), with their parsers and
//! serializers.
//!
//! Every value can be built, read from its wire form, written in its wire
//! form, read from a container of headers and written to one. What each
//! function returns is stated over the characters of the wire form, as a
//! `Seq<char>`, and over the view of each value:
//!
//! - [`text`] and [`decimal`] define trimming, splitting and decimal
//!   numbers, and prove that joining undoes splitting and that a number that
//!   was written reads back;
//! - [`byte_range`], [`byte_ranges`], [`byte_content_range`],
//!   [`accept_ranges`] and [`unit`] hold the values, each with the wire forms
//!   it accepts, the wire form it writes, and the proof that a valid value
//!   that was written reads back as itself;
//! - [`headers`] is the container, and [`error`] the error with its HTTP
//!   status.
pub mod accept_ranges;
pub mod byte_content_range;
pub mod byte_range;
pub mod byte_ranges;
pub mod decimal;
pub mod error;
pub mod headers;
pub mod text;
pub mod unit;

pub use accept_ranges::AcceptRanges;
pub use byte_content_range::ByteContentRange;
pub use byte_range::ByteRange;
pub use byte_ranges::ByteRanges;
pub use error::{Error, StatusCode};
pub use headers::Headers;
pub use unit::Unit;

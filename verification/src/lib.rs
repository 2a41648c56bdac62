//! A verified request-routing core for HTTP-like servers.
//!
//! Routes are registered as `(Method, pattern)` pairs mapping to a handler.
//! A pattern is a `/`-delimited string; a segment beginning with `:` is a
//! wildcard that matches any single path segment. Dispatch first looks for a
//! pattern byte-for-byte equal to the request path and, failing that, scans
//! the routes of the request's method for the first segment-wise structural
//! match.

pub mod matcher;
mod method;
mod table;

pub use matcher::count_segments;
pub use matcher::is_wildcard;
pub use matcher::lemma_match_needs_equal_segments;
pub use matcher::pattern_matches;
pub use matcher::seg_matches;
pub use matcher::segments;
pub use matcher::split_segments;
pub use method::Method;
pub use table::has_match;
pub use table::route_key;
pub use table::table_of;
pub use table::unique_keys;
pub use table::RouteEntry;
pub use table::RouteTable;

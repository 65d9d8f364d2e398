//! Watches a housing-offer listing: parses the offer table out of a page,
//! diffs the result against the last cached snapshot, and encodes the new
//! snapshot for the cache.
pub mod codec;
pub mod diff;
pub mod offer;
pub mod scrape;
pub mod text;

//! Knuth-Morris-Pratt substring search over sequences whose elements are
//! compared by an equality relation: structural equality, or one that the
//! caller supplies.
//!
//! The search runs in time linear in the combined lengths, never re-examines
//! a consumed text element, and returns the offset of the first occurrence
//! of the pattern in the text, if any. Offsets are element indices of the
//! text slice: for a text of bytes they are byte offsets, whatever the
//! bytes encode.

pub mod relation;
pub mod search;
pub mod table;

pub use relation::decided_by;
pub use relation::equality_for;
pub use relation::first_match;
pub use relation::is_equivalence;
pub use relation::matches_at;
pub use relation::result_agrees;
pub use relation::search_result_ok;
pub use search::knuth_morris_pratt;
pub use search::knuth_morris_pratt_by;
pub use search::strict_equality;

//! A Last-Write-Wins element dictionary: a conflict-free replicated key-value
//! store in which every write and delete carries a timestamp, and conflicts
//! are resolved deterministically in favour of the greatest timestamp, with
//! adds winning exact ties against removes.

mod dict;
mod laws;
mod store;
mod timestamp;

pub use dict::DictView;
pub use dict::LWWElementDictionary;
pub use dict::empty_dict;
pub use dict::lww_max;
pub use dict::merged_adds;
pub use dict::merged_removes;
pub use dict::spec_add;
pub use dict::spec_lookup;
pub use dict::spec_merge;
pub use dict::spec_present;
pub use dict::spec_remove;
pub use laws::KeyOp;
pub use laws::apply_key_ops;
pub use laws::lemma_add_stamp_monotonic;
pub use laws::lemma_add_tie_break;
pub use laws::lemma_add_wins_equal_timestamp;
pub use laws::lemma_key_ops_records;
pub use laws::lemma_merge_commutes_on_distinct_stamps;
pub use laws::lemma_merge_idempotent;
pub use laws::lemma_merge_tie_asymmetry;
pub use laws::lemma_race_add_wins;
pub use laws::lemma_race_order_insensitive;
pub use laws::lemma_race_remove_wins;
pub use laws::lemma_remove_stamp_monotonic;
pub use laws::lemma_remove_wins_later;
pub use laws::lemma_resurrection;
pub use laws::op_is_add;
pub use laws::op_stamp;
pub use laws::op_value;
pub use timestamp::Timestamp;

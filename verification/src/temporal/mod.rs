//! Exact time: fractions of a beat and the slices of a timeline.

pub mod fraction;
pub mod merge;
pub mod onsets;
pub mod timeline;

pub use fraction::Fraction;
pub use merge::{get_part_entries, place_and_merge_part_timeslice};
pub use onsets::{group_onsets, Onset};
pub use timeline::{place_and_merge, Moment, PartEntry, PartTimeslice, Slice, SliceView, Timeslice};

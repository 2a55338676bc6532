//! Resolves time-overlap conflicts among priority-ranked intervals.
//!
//! Given a list of programs, each with a start time, an end time and a
//! priority, the library produces a non-overlapping list of segments that at
//! every covered instant shows the program of highest rank among those whose
//! range contains the instant, splitting lower-priority programs around the
//! higher-priority ones that intersect them. Between equal priorities the
//! program that appears later in the input wins.

pub mod active_list;
pub mod holder;
pub mod laws;
pub mod ordering;
pub mod sweep;
pub mod timed;
pub mod timeline;

pub use holder::ObjHolder;
pub use holder::lemma_ranked_unique;
pub use holder::ranked_of;
pub use holder::recreate_priority_index;
pub use laws::lemma_tie_break;
pub use laws::lemma_tie_break_pair;
pub use ordering::covered;
pub use ordering::covers;
pub use ordering::key_lt;
pub use ordering::lemma_winner_exists;
pub use ordering::payload_eq;
pub use ordering::wins;
pub use sweep::fragment_of;
pub use sweep::lemma_timeline_unique;
pub use sweep::resolved_order;
pub use sweep::sweep_from;
pub use sweep::segment_cut;
pub use sweep::max_active;
pub use sweep::is_max_active;
pub use sweep::seg_contains;
pub use sweep::time_order_by_priority;
pub use timed::Program;
pub use timed::Timed;
pub use timeline::TimedEvent;
pub use timeline::create_time_order_events;
pub use timeline::timeline_of;

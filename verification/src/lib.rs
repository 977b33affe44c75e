//! Announcement reconciliation for a transit operator's announcement feed:
//! extracting timestamped announcement records from markup, keeping a
//! time-sorted, datetime-deduplicated historical record, and computing which
//! freshly fetched announcements have not been seen before.

pub mod announcement;
pub mod extract;
pub mod order;
pub mod reconcile;

pub use announcement::Announcement;
pub use announcement::Timestamp;
pub use extract::ExtractError;
pub use extract::extract_announcements;
pub use order::dedup_by_datetime;
pub use order::sort_by_datetime;
pub use reconcile::RunPlan;
pub use reconcile::merge_announcements;
pub use reconcile::novel_announcements;
pub use reconcile::plan_run;
pub use reconcile::reconcile;

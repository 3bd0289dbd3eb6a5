//! Concurrent-container building blocks with verified sequential cores: a split-ordered
//! hash map over a sorted list, an ordered list set, and a thread pool's job accounting.

pub mod job_count;
pub mod list_set;
pub mod ordered_list;
pub mod split_order;
pub mod split_ordered_list;

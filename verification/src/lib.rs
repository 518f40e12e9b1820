//! A small task-tracking library: an in-memory collection of tasks with
//! id assignment, mutation, a filter/search/sort query pipeline, a plain-text
//! renderer, and a verified reader and writer for the stored document.

pub mod codec;
pub mod query;
pub mod render;
pub mod repo;
pub mod task;
pub mod text;

pub use codec::load_tasks;
pub use codec::parse_due_date;
pub use codec::save_tasks;
pub use codec::ParseError;
pub use query::matches_search;
pub use query::SortBy;
pub use repo::next_id;
pub use task::Date;
pub use task::Priority;
pub use task::Task;

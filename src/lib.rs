//! A knowledge base of notes classified by hierarchical tags (topics, contexts) and flat
//! tags (sources), each note also mirrored into a tree of Markdown documents grouped by
//! its topic. The modules hold the tag-path parser, the get-or-create resolvers, the note
//! store, the document mirror and the operations that keep the two stores in step.

pub mod config;
pub mod forest;
pub mod last;
pub mod mirror;
pub mod note;
pub mod path;
pub mod schema;
pub mod source;
pub mod store;
pub mod tags;
pub mod text;
pub mod topic;

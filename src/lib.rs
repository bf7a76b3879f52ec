//! Verified core of a folder-of-markdown-files note store: the rules that
//! turn note text into titles, previews and file names, the mapping between
//! note ids and file paths, the rename-safe save protocol, debounced
//! reconciliation of outside file changes, and the substring search that
//! stands in when the full-text index cannot answer.
pub mod assets;
pub mod codec;
pub mod listing;
pub mod locations;
pub mod markdown;
pub mod naming;
pub mod reconcile;
pub mod search;
pub mod store;
pub mod template;
pub mod text;

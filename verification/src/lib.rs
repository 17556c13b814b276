//! Verified core of the file-picker hook: the directory tree that is rendered
//! as YAML for the picker, the filter and path handling, the state of the
//! replacement file dialog, and the decisions of the Windows entry points.

pub mod dialog;
pub mod events;
pub mod filter;
pub mod path_laws;
pub mod paths;
pub mod text;
pub mod tree;
pub mod tree_laws;
pub mod walk;

pub use dialog::DialogState;
pub use filter::matches_filter;
pub use text::yaml_escape;
pub use tree::Node;

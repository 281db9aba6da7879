//! `topfs`: the biggest files and directories of a file system, as a tree.
//!
//! This library holds what the scan decides and what the display shows:
//! sizes and dates as text, the ANSI colouring and truncation of lines,
//! reading `hdfs dfs -ls -R` listings, crediting sizes to ancestors,
//! choosing the largest entries, building and drawing the tree, and the
//! Slack message. Each function states its result in its contract, over the
//! mathematical values of its arguments.
pub mod text;
pub mod time;
pub mod size;
pub mod style;
pub mod entry;
pub mod tree;
pub mod select;
pub mod render;
pub mod paths;
pub mod screen;
pub mod remote;
pub mod scan;
pub mod slack;

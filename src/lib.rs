//! Locating marker comments (such as `TODO`) in source trees and in the
//! lines that version-control history added to them.
pub mod date;
pub mod history;
pub mod matcher;
pub mod reconcile;
pub mod render;
pub mod report;
pub mod text;

//! Hunk-level operations on jj revisions.
//!
//! The crate reads the git-style diff of a revision into hunks, picks hunks (or lines of hunks)
//! out of it, and builds the patches and the jj invocations that move just those changes.
pub mod absorb;
pub mod absorb_laws;
pub mod announce;
pub mod command_laws;
pub mod diff;
pub mod diff_laws;
pub mod display;
pub mod display_laws;
pub mod header;
pub mod hunk;
pub mod jj;
pub mod laws;
pub mod operate;
pub mod operate_laws;
pub mod patch;
pub mod ranges;
pub mod report;
pub mod report_laws;
pub mod reread;
pub mod review;
pub mod review_laws;
pub mod roundtrip;
pub mod route;
pub mod route_laws;
pub mod selection;
pub mod surgeon;
pub mod terminal;
pub mod text;
pub mod text_laws;

//! Composes unified diffs.
//!
//! Given a diff that leads from a first revision to a second and a diff
//! that leads from the second to a third, the library gives one diff that
//! leads from the first to the third. The two diffs are fused file by
//! file, hunk by hunk and line by line:
//!
//! - `diff` joins the blocks of the two diffs by file name,
//! - `file_diff` holds the hunks of one file and `fuse::fuse_iter` walks
//!   the hunks of two blocks together,
//! - `hunk` holds one hunk and `fuse::kernel` fuses hunks that meet, line
//!   by line.
//!
//! Beside these stand the parts that fuse two hunks without running
//! offsets, each line marked with the hand it comes from: `merge`,
//! `hunk::merge`, `hunk::merge_iter` and `file_diff::merge_iter`, with the
//! line numbering of `info`, `line_no` and `hunk::info_iter`.
//!
//! Every function states what it returns in terms of a mathematical value
//! of its arguments, its view, and is verified against that statement.

pub mod decimal;
pub mod diff;
pub mod error;
pub mod file_diff;
pub mod fuse;
pub mod hand;
pub mod header;
pub mod hunk;
pub mod info;
pub mod line_no;
pub mod lines;
pub mod merge;
pub mod tags;
pub mod text;

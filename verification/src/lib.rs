//! Finding duplicate files and deciding which copies to remove.
//!
//! The library groups scanned files by the digest of their content, derives
//! the relations among the directories that hold the duplicates, decides
//! which staging questions are put and what each answer stages, and keeps
//! the record of the staged removals with the check that no set of
//! identical files loses all its members. Walking the disk, asking the user
//! and deleting are left to the caller.

pub mod args;
pub mod ask;
pub mod brothers;
pub mod copy_name;
pub mod dirs;
pub mod dup;
pub mod dup_report;
pub mod export;
pub mod ext;
pub mod file_pair;
pub mod hash;
pub mod index;
pub mod pairs;
pub mod parents;
pub mod paths;
pub mod removal_report;
pub mod safety;
pub mod scan;
pub mod session;
pub mod sorting;
pub mod staged;
pub mod tally;
pub mod text;

pub use args::Args;
pub use ask::{
    answer_auto_solve, answer_on_brotherhood, answer_on_dir_pair, answer_on_dup_dir, ask_auto_solve,
    ask_on_brotherhood, ask_on_dir_pair, ask_on_dirs, ask_on_dup_dir, other_entries,
    passed_over, question_count,
    question_number, AutoSolveChoice, AutoSolveQuestion, BrotherhoodChoice, BrotherhoodQuestion,
    DirPairChoice, DirPairQuestion, DupDirChoice, DupDirQuestion, Proposal,
};
pub use copy_name::is_copy_name_text;
pub use dirs::{
    Brotherhood, DirPair, DirPairKey, DirSize, DirsAnalysis, DirsReport, DupDir, UnreadableDir,
};
pub use dup::{copy_name, reference_file, DupFile, DupFileRef, DupSet};
pub use dup_report::{DupGroup, DupGroups, DupReport, FileLen, HashedFile};
pub use ext::is_image;
pub use file_pair::FilePair;
pub use hash::{ContentHasher, FileHash};
pub use removal_report::{
    EmptiedSet, FileAction, RemovalPlan, RemovalReport, RemovalTally, StagedFile, TouchedSet,
};
pub use scan::{is_hidden, scan_step, EntryKind, ScanStep};
pub use session::Staging;
pub use staged::StagedSet;

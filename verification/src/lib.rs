//! Tools for the three files of a KCD recording set: the recording itself
//! (KCD), the index of its video clips (HDR), and the acquisition session
//! that points at the recording (RAF).
//!
//! Every function here works on bytes that are already in memory and hands
//! bytes back, so that the layout rules of the formats can be stated and
//! proved; reading and writing the files is left to the caller.
pub mod clone;
pub mod error;
pub mod hdr;
pub mod mode;
pub mod patch;
pub mod relocate;
pub mod rename;
pub mod scan;
pub mod splice;
pub mod text;

pub use clone::{clone_kcd_with_videos, CloneSet};
pub use error::KcdError;
pub use hdr::{KCDVideoHDR, VideoBlock};
pub use mode::{FileAction, Mode};
pub use patch::{modify_kcrmovie_text, modify_raf_file, modify_video_hdr};
pub use relocate::{move_videos, pair_videos, video_names, BatchProgress, FailurePolicy, Relocation,
    RelocationPlan};
pub use rename::RenamePolicy;
pub use scan::find_kcrmovie_position;
pub use splice::SpliceTarget;

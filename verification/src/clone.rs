//! Cloning a recording set under a new label.
//!
//! The clone has an index whose clips are relabelled, a recording that names
//! that index, and a batch that takes the clips to their new names. All
//! three are worked out before anything is written, so that a label that is
//! refused leaves nothing behind.
use crate::error::KcdError;
use crate::mode::Mode;
use crate::patch::{modify_kcrmovie_text, modify_video_hdr, relabelled, relinked};
use crate::relocate::{move_videos, pair_views, planned, RelocationPlan};
use crate::rename::RenamePolicy;
use vstd::prelude::*;
use vstd::string::StringExecFns;
use vstd::string::StringSliceAdditionalSpecFns;

verus! {

/// The files of a clone, and the batch that moves its clips.
#[derive(Debug, Clone, PartialEq, Eq)]
pub struct CloneSet {
    /// Name of the new index: the label and `.hdr`. It lies in a folder named by the label.
    pub hdr_name: String,
    /// The bytes of the new index.
    pub hdr: Vec<u8>,
    /// Name of the new recording: the label and `.kcd`.
    pub kcd_name: String,
    /// The bytes of the new recording.
    pub kcd: Vec<u8>,
    /// The clips to move, from their names in the old index to their names in the new one.
    pub videos: RelocationPlan,
}

/// Works out the clone of a recording set.
///
/// The index is relabelled first, then the recording is linked to the label, then the
/// clips of the old index are paired with those of the new one. The first refusal is
/// the result. The recording itself is always copied; `mode` is for the clips.
///
/// In the paths of the index the label stands as Latin-1, one byte for each character.
/// In the recording's link it stands as its UTF-8 bytes.
pub fn clone_kcd_with_videos(
    kcd: &[u8],
    hdr: &[u8],
    label: &str,
    mode: Mode,
    policy: RenamePolicy,
) -> (r: Result<CloneSet, KcdError>)
    ensures
        match relabelled(hdr@, label@, policy) {
            Err(e) => r == Err::<CloneSet, KcdError>(e),
            Ok(new_hdr) => match relinked(kcd@, label.spec_bytes()) {
                Err(e) => r == Err::<CloneSet, KcdError>(e),
                Ok(new_kcd) => match planned(hdr@, new_hdr) {
                    Err(e) => r == Err::<CloneSet, KcdError>(e),
                    Ok(pairs) => {
                        &&& r matches Ok(set)
                        &&& set.hdr@ == new_hdr
                        &&& set.kcd@ == new_kcd
                        &&& set.hdr_name@ == label@ + ".hdr"@
                        &&& set.kcd_name@ == label@ + ".kcd"@
                        &&& set.videos.mode == mode
                        &&& pair_views(set.videos.pairs@) == pairs
                    },
                },
            },
        },
{
    let new_hdr = match modify_video_hdr(hdr, label, policy) {
        Ok(bytes) => bytes,
        Err(e) => {
            return Err(e);
        },
    };
    let new_kcd = match modify_kcrmovie_text(kcd, label) {
        Ok(bytes) => bytes,
        Err(e) => {
            return Err(e);
        },
    };
    let videos = match move_videos(hdr, new_hdr.as_slice(), mode) {
        Ok(plan) => plan,
        Err(e) => {
            return Err(e);
        },
    };
    let hdr_name = String::from_str(label).concat(".hdr");
    let kcd_name = String::from_str(label).concat(".kcd");
    Ok(CloneSet { hdr_name, hdr: new_hdr, kcd_name, kcd: new_kcd, videos })
}

} // verus!

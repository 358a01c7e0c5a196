//! Relabelling the clips of an index.
//!
//! Two policies exist side by side, and the caller says which one applies.
//! Segment replacement puts the label in place of each path's top folder and
//! keeps the rest. Sequential regeneration names every clip anew, by the
//! label and the clip's position.
use crate::error::KcdError;
use crate::hdr::{block_views, first_too_long, BlockView, HdrView, KCDVideoHDR, VideoBlock};
use crate::text::{decimal, decimal_digits, extension, file_name, lemma_after_last,
    lemma_first_from, offset_after_last, offset_of_first, push_from, same_bytes, top_len, BACKSLASH,
    DOT, FIELD_WIDTH};
use vstd::prelude::*;
use vstd::slice::slice_subrange;
use vstd::string::StrSliceExecFns;

verus! {

/// Most characters that a label may have.
pub const LABEL_MAX: usize = 120;

/// How the paths of an index get their new names.
#[derive(Debug, Clone, Copy, PartialEq, Eq, Structural)]
pub enum RenamePolicy {
    /// The label replaces the top folder; the file's name stays.
    SegmentReplace,
    /// Every path becomes the label, a backslash, the label, the record's number counted
    /// from one, a dot, and the extension that the clips share.
    SequentialRegenerate,
}

/// The extension used where the clips show none in common: `avi`.
pub open spec fn default_extension() -> Seq<u8> {
    seq![0x61u8, 0x76u8, 0x69u8]
}

/// The extension of the first record, where the second record, if there is one, has the
/// same; the default extension otherwise.
pub open spec fn common_extension(blocks: Seq<BlockView>) -> Seq<u8> {
    if blocks.len() == 0 {
        default_extension()
    } else {
        match extension(blocks[0].path) {
            None => default_extension(),
            Some(ext) => if blocks.len() >= 2 && extension(blocks[1].path) != Some(ext) {
                default_extension()
            } else {
                ext
            },
        }
    }
}

/// The new path of the record at `index`.
pub open spec fn renamed_path(
    policy: RenamePolicy,
    label: Seq<u8>,
    ext: Seq<u8>,
    index: int,
    path: Seq<u8>,
) -> Seq<u8> {
    match policy {
        RenamePolicy::SegmentReplace => label + path.skip(top_len(path)),
        RenamePolicy::SequentialRegenerate => label + seq![BACKSLASH] + label + decimal(
            (index + 1) as nat,
        ) + seq![DOT] + ext,
    }
}

/// The records with their new paths.
pub open spec fn renamed_blocks(policy: RenamePolicy, label: Seq<u8>, blocks: Seq<BlockView>) -> Seq<
    BlockView,
> {
    Seq::new(
        blocks.len(),
        |i: int|
            BlockView {
                head: blocks[i].head,
                path: renamed_path(policy, label, common_extension(blocks), i, blocks[i].path),
                tail: blocks[i].tail,
            },
    )
}

/// The index with its new paths.
///
/// The label is given as its bytes, one for each character. A label of more than 120 is
/// refused, and so is a label with which some path would outgrow its field: the error
/// names the first such record.
pub open spec fn renamed(index: HdrView, label: Seq<u8>, policy: RenamePolicy) -> Result<
    HdrView,
    KcdError,
> {
    if label.len() > LABEL_MAX {
        Err(KcdError::NameTooLong)
    } else {
        let blocks = renamed_blocks(policy, label, index.blocks);
        match first_too_long(blocks, 0) {
            Some(i) => Err(KcdError::PathTooLong { record: i as usize }),
            None => Ok(HdrView { magic: index.magic, count: index.count, blocks }),
        }
    }
}

/// Every character of `text` is one of Latin-1: its code is 255 at most.
pub open spec fn is_latin1(text: Seq<char>) -> bool {
    forall|i: int| 0 <= i < text.len() ==> (#[trigger] text[i]) as u32 <= 0xFF
}

/// The bytes of a text of Latin-1: for each character the byte of its code.
pub open spec fn latin1(text: Seq<char>) -> Seq<u8> {
    Seq::new(text.len(), |i: int| text[i] as u8)
}

/// The bytes that a label is written as.
///
/// A label of more than 120 characters is refused, and so is one with a character outside
/// Latin-1.
pub open spec fn label_bytes(text: Seq<char>) -> Result<Seq<u8>, KcdError> {
    if text.len() > LABEL_MAX {
        Err(KcdError::NameTooLong)
    } else if !is_latin1(text) {
        Err(KcdError::NotLatin1)
    } else {
        Ok(latin1(text))
    }
}

/// The index with its new paths under a label given as text.
pub open spec fn relabelled_index(index: HdrView, label: Seq<char>, policy: RenamePolicy) -> Result<
    HdrView,
    KcdError,
> {
    match label_bytes(label) {
        Err(e) => Err(e),
        Ok(bytes) => renamed(index, bytes, policy),
    }
}

/// The bytes that a label is written as.
pub fn encode_label(text: &str) -> (r: Result<Vec<u8>, KcdError>)
    ensures
        match label_bytes(text@) {
            Ok(bytes) => r is Ok && r->Ok_0@ == bytes,
            Err(e) => r == Err::<Vec<u8>, KcdError>(e),
        },
{
    let n = text.unicode_len();
    if n > LABEL_MAX {
        return Err(KcdError::NameTooLong);
    }
    let mut bytes: Vec<u8> = Vec::new();
    let mut i: usize = 0;
    while i < n
        invariant
            i <= n == text@.len(),
            n <= LABEL_MAX,
            forall|k: int| 0 <= k < i ==> (#[trigger] text@[k]) as u32 <= 0xFF,
            bytes@ == latin1(text@).take(i as int),
        decreases n - i,
    {
        let code = text.get_char(i) as u32;
        if code > 0xFF {
            assert(text@[i as int] as u32 > 0xFF);
            return Err(KcdError::NotLatin1);
        }
        bytes.push(code as u8);
        assert(bytes@ =~= latin1(text@).take(i + 1));
        i = i + 1;
    }
    assert(latin1(text@).take(n as int) =~= latin1(text@));
    Ok(bytes)
}

/// The extension of a path's file name.
pub fn file_extension(path: &[u8]) -> (ext: Option<Vec<u8>>)
    ensures
        match extension(path@) {
            Some(e) => ext is Some && ext->Some_0@ == e,
            None => ext is None,
        },
{
    let start = offset_after_last(path, BACKSLASH);
    proof {
        lemma_after_last(path@, BACKSLASH);
    }
    let name = slice_subrange(path, start, path.len());
    assert(name@ =~= file_name(path@));
    let dot = offset_after_last(name, DOT);
    proof {
        lemma_after_last(name@, DOT);
    }
    if dot == 0 || dot == name.len() {
        None
    } else {
        let mut ext: Vec<u8> = Vec::new();
        push_from(&mut ext, name, dot);
        assert(ext@ =~= name@.skip(dot as int));
        Some(ext)
    }
}

/// The extension that sequential regeneration gives to every clip.
pub fn shared_extension(data: &Vec<VideoBlock>) -> (ext: Vec<u8>)
    ensures
        ext@ == common_extension(block_views(data@)),
{
    let mut fallback: Vec<u8> = Vec::new();
    fallback.push(0x61);
    fallback.push(0x76);
    fallback.push(0x69);
    assert(fallback@ =~= default_extension());
    if data.len() == 0 {
        return fallback;
    }
    match file_extension(data[0].filepath.as_slice()) {
        None => fallback,
        Some(first) => {
            if data.len() >= 2 {
                match file_extension(data[1].filepath.as_slice()) {
                    None => fallback,
                    Some(second) => if same_bytes(first.as_slice(), second.as_slice()) {
                        first
                    } else {
                        fallback
                    },
                }
            } else {
                first
            }
        },
    }
}

/// The new path of the record at `index`.
pub fn new_path(policy: RenamePolicy, label: &[u8], ext: &[u8], index: usize, path: &[u8]) -> (fresh:
    Vec<u8>)
    requires
        index < usize::MAX,
    ensures
        fresh@ == renamed_path(policy, label@, ext@, index as int, path@),
{
    let mut fresh: Vec<u8> = Vec::new();
    push_from(&mut fresh, label, 0);
    match policy {
        RenamePolicy::SegmentReplace => {
            let top = offset_of_first(path, BACKSLASH);
            proof {
                lemma_first_from(path@, BACKSLASH, 0);
            }
            push_from(&mut fresh, path, top);
            assert(fresh@ =~= renamed_path(policy, label@, ext@, index as int, path@));
        },
        RenamePolicy::SequentialRegenerate => {
            fresh.push(BACKSLASH);
            push_from(&mut fresh, label, 0);
            let digits = decimal_digits(index + 1);
            push_from(&mut fresh, digits.as_slice(), 0);
            fresh.push(DOT);
            push_from(&mut fresh, ext, 0);
            assert(fresh@ =~= renamed_path(policy, label@, ext@, index as int, path@));
        },
    }
    fresh
}

impl KCDVideoHDR {
    /// Gives every record its new path, or refuses and changes nothing.
    pub fn rename_bytes(&mut self, label: &[u8], policy: RenamePolicy) -> (r: Result<(), KcdError>)
        ensures
            match renamed(old(self)@, label@, policy) {
                Ok(index) => r == Ok::<(), KcdError>(()) && final(self)@ == index,
                Err(e) => r == Err::<(), KcdError>(e) && *final(self) == *old(self),
            },
    {
        if label.len() > LABEL_MAX {
            return Err(KcdError::NameTooLong);
        }
        let ext = shared_extension(&self.data);
        let ghost target = renamed_blocks(policy, label@, block_views(self.data@));
        let mut fresh: Vec<VideoBlock> = Vec::new();
        let mut i: usize = 0;
        while i < self.data.len()
            invariant
                *self == *old(self),
                label@.len() <= LABEL_MAX,
                i <= self.data@.len(),
                ext@ == common_extension(block_views(self.data@)),
                target == renamed_blocks(policy, label@, block_views(self.data@)),
                first_too_long(target, 0) == first_too_long(target, i as int),
                fresh@.len() == i,
                forall|k: int| 0 <= k < i ==> (#[trigger] fresh@[k])@ == target[k],
            decreases self.data@.len() - i,
        {
            let block = &self.data[i];
            let filepath = new_path(policy, label, ext.as_slice(), i, block.filepath.as_slice());
            assert(target[i as int].path == filepath@);
            if filepath.len() > FIELD_WIDTH {
                return Err(KcdError::PathTooLong { record: i });
            }
            fresh.push(VideoBlock { head: block.head, filepath, tail: block.tail });
            i = i + 1;
        }
        assert(block_views(fresh@) =~= target);
        self.data = fresh;
        Ok(())
    }

    /// Gives every record its new path under the label `prefix`, or refuses and changes
    /// nothing. The label counts by its characters and is written as Latin-1, one byte for
    /// each.
    pub fn rename(&mut self, prefix: &str, policy: RenamePolicy) -> (r: Result<(), KcdError>)
        ensures
            match relabelled_index(old(self)@, prefix@, policy) {
                Ok(index) => r == Ok::<(), KcdError>(()) && final(self)@ == index,
                Err(e) => r == Err::<(), KcdError>(e) && *final(self) == *old(self),
            },
    {
        match encode_label(prefix) {
            Ok(label) => self.rename_bytes(label.as_slice(), policy),
            Err(e) => Err(e),
        }
    }
}

} // verus!

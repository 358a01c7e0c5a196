//! Rewriting the references that the files of a recording set hold to each other.
//!
//! A recording (KCD) names its index in a 256-byte field that starts sixteen
//! bytes behind the marker; the field is overwritten in place. A session
//! (RAF) gets the recording's path as a new 256-byte field behind its
//! 574-byte header. An index (HDR) has the paths of its clips relabelled.
use crate::error::KcdError;
use crate::hdr::{decode, encode, first_too_long, lemma_no_long_path, KCDVideoHDR};
use crate::rename::{is_latin1, label_bytes, relabelled_index, renamed_blocks, RenamePolicy,
    LABEL_MAX};
use crate::scan::{find_kcrmovie_position, lemma_located, locate};
use crate::splice::{inserted, overwritten, SpliceTarget};
use crate::text::{backslashed, pad_nuls, push_from, BACKSLASH, FIELD_WIDTH, SLASH};
use vstd::prelude::*;
use vstd::string::StringSliceAdditionalSpecFns;

verus! {

/// Distance from the marker to the field that names the index.
pub const LINK_OFFSET: usize = 16;

/// Number of bytes in the fixed header of a session file.
pub const RAF_HEADER_LEN: usize = 574;

/// The four bytes with which a session file begins: `RAF` and a NUL.
pub open spec fn raf_magic() -> Seq<u8> {
    seq![82u8, 65u8, 70u8, 0u8]
}

/// The text that names the index with the stem `stem`: the stem, a backslash, the stem
/// again, and `.hdr`.
pub open spec fn hdr_tag(stem: Seq<u8>) -> Seq<u8> {
    stem + seq![BACKSLASH] + stem + seq![0x2Eu8, 0x68u8, 0x64u8, 0x72u8]
}

/// The recording `kcd`, made to name the index with the stem `stem`.
///
/// The marker is looked for first, and what the search refuses is refused here. Then the
/// name has to fit its field, and the field has to lie within the recording.
pub open spec fn relinked(kcd: Seq<u8>, stem: Seq<u8>) -> Result<Seq<u8>, KcdError> {
    match locate(kcd) {
        Err(e) => Err(e),
        Ok(pos) => if hdr_tag(stem).len() > FIELD_WIDTH {
            Err(KcdError::NameTooLong)
        } else if kcd.len() < pos + LINK_OFFSET + FIELD_WIDTH {
            Err(KcdError::TruncatedInput)
        } else {
            Ok(overwritten(kcd, pos + LINK_OFFSET, hdr_tag(stem)))
        },
    }
}

/// The session `raf`, made to name the recording at `path`.
///
/// The header has to be there in full and begin with the magic, and the path has to fit
/// its field. Slashes in the path become backslashes.
pub open spec fn raf_linked(raf: Seq<u8>, path: Seq<u8>) -> Result<Seq<u8>, KcdError> {
    if raf.len() < RAF_HEADER_LEN {
        Err(KcdError::TruncatedInput)
    } else if raf.subrange(0, 4) != raf_magic() {
        Err(KcdError::InvalidFormat)
    } else if path.len() > FIELD_WIDTH {
        Err(KcdError::NameTooLong)
    } else {
        Ok(inserted(raf, RAF_HEADER_LEN as int, backslashed(path)))
    }
}

/// The bytes of the index `hdr` with its clips relabelled.
pub open spec fn relabelled(hdr: Seq<u8>, label: Seq<char>, policy: RenamePolicy) -> Result<
    Seq<u8>,
    KcdError,
> {
    match decode(hdr) {
        Err(e) => Err(e),
        Ok(index) => match relabelled_index(index, label, policy) {
            Err(e) => Err(e),
            Ok(fresh) => encode(fresh),
        },
    }
}

/// The text that names the index with the stem `stem`.
pub fn link_text(stem: &[u8]) -> (tag: Vec<u8>)
    ensures
        tag@ == hdr_tag(stem@),
{
    let mut tag: Vec<u8> = Vec::new();
    push_from(&mut tag, stem, 0);
    tag.push(BACKSLASH);
    push_from(&mut tag, stem, 0);
    tag.push(0x2E);
    tag.push(0x68);
    tag.push(0x64);
    tag.push(0x72);
    assert(tag@ =~= hdr_tag(stem@));
    tag
}

/// `path` with every slash replaced by a backslash.
pub fn with_backslashes(path: &[u8]) -> (fresh: Vec<u8>)
    ensures
        fresh@ == backslashed(path@),
{
    let mut fresh: Vec<u8> = Vec::new();
    let mut i: usize = 0;
    while i < path.len()
        invariant
            i <= path@.len(),
            fresh@ == backslashed(path@).take(i as int),
        decreases path@.len() - i,
    {
        let b = path[i];
        fresh.push(
            if b == SLASH {
                BACKSLASH
            } else {
                b
            },
        );
        assert(fresh@ =~= backslashed(path@).take(i + 1));
        i = i + 1;
    }
    assert(backslashed(path@).take(path@.len() as int) =~= backslashed(path@));
    fresh
}

/// Makes a recording name the index with the stem `hdr_stem`.
///
/// The result has the length of `kcd` and differs from it only in the 256 bytes of the
/// field.
pub fn modify_kcrmovie_text(kcd: &[u8], hdr_stem: &str) -> (r: Result<Vec<u8>, KcdError>)
    ensures
        match relinked(kcd@, hdr_stem.spec_bytes()) {
            Ok(bytes) => r is Ok && r->Ok_0@ == bytes,
            Err(e) => r == Err::<Vec<u8>, KcdError>(e),
        },
        r is Ok ==> r->Ok_0@.len() == kcd@.len(),
{
    let pos = match find_kcrmovie_position(kcd) {
        Ok(pos) => pos,
        Err(e) => {
            return Err(e);
        },
    };
    let tag = link_text(hdr_stem.as_bytes());
    if tag.len() > FIELD_WIDTH {
        return Err(KcdError::NameTooLong);
    }
    if kcd.len() - pos < LINK_OFFSET {
        return Err(KcdError::TruncatedInput);
    }
    match SpliceTarget::overwrite(kcd, pos + LINK_OFFSET, tag.as_slice()) {
        Ok(target) => Ok(target.assemble()),
        Err(e) => Err(e),
    }
}

/// Makes a session name the recording at `kcd_path`.
///
/// The result is 256 bytes longer than `raf`: the field is put in behind the header, and
/// everything that followed the header follows the field.
pub fn modify_raf_file(raf: &[u8], kcd_path: &str) -> (r: Result<Vec<u8>, KcdError>)
    ensures
        match raf_linked(raf@, kcd_path.spec_bytes()) {
            Ok(bytes) => r is Ok && r->Ok_0@ == bytes,
            Err(e) => r == Err::<Vec<u8>, KcdError>(e),
        },
        r is Ok ==> r->Ok_0@.len() == raf@.len() + FIELD_WIDTH,
{
    if raf.len() < RAF_HEADER_LEN {
        return Err(KcdError::TruncatedInput);
    }
    if raf[0] != 82 || raf[1] != 65 || raf[2] != 70 || raf[3] != 0 {
        assert(raf@.subrange(0, 4)[0] == raf@[0]);
        assert(raf@.subrange(0, 4)[1] == raf@[1]);
        assert(raf@.subrange(0, 4)[2] == raf@[2]);
        assert(raf@.subrange(0, 4)[3] == raf@[3]);
        return Err(KcdError::InvalidFormat);
    }
    assert(raf@.subrange(0, 4) =~= raf_magic());
    let path = with_backslashes(kcd_path.as_bytes());
    match SpliceTarget::insert(raf, RAF_HEADER_LEN, path.as_slice()) {
        Ok(target) => Ok(target.assemble()),
        Err(e) => Err(e),
    }
}

/// Relabels the clips of an index and gives the bytes of the new index.
pub fn modify_video_hdr(hdr: &[u8], prefix: &str, policy: RenamePolicy) -> (r: Result<
    Vec<u8>,
    KcdError,
>)
    ensures
        match relabelled(hdr@, prefix@, policy) {
            Ok(bytes) => r is Ok && r->Ok_0@ == bytes,
            Err(e) => r == Err::<Vec<u8>, KcdError>(e),
        },
{
    let mut index = match KCDVideoHDR::from_bytes(hdr) {
        Ok(index) => index,
        Err(e) => {
            return Err(e);
        },
    };
    match index.rename(prefix, policy) {
        Ok(()) => index.to_bytes(),
        Err(e) => Err(e),
    }
}

/// A label with which the path of some record would outgrow its field is refused: no
/// bytes of a new index come back.
pub proof fn lemma_long_path_refused(hdr: Seq<u8>, label: Seq<char>, policy: RenamePolicy, i: int)
    requires
        decode(hdr) matches Ok(index) && label_bytes(label) matches Ok(bytes) && 0 <= i
            < index.blocks.len() && renamed_blocks(policy, bytes, index.blocks)[i].path.len()
            > FIELD_WIDTH,
    ensures
        relabelled(hdr, label, policy) is Err,
{
    let index = decode(hdr)->Ok_0;
    let bytes = label_bytes(label)->Ok_0;
    let blocks = renamed_blocks(policy, bytes, index.blocks);
    if first_too_long(blocks, 0) is None {
        lemma_no_long_path(blocks, 0);
    }
}

/// A label of more than 120 characters, or with a character outside Latin-1, is refused:
/// no bytes of a new index come back.
pub proof fn lemma_bad_label_refused(hdr: Seq<u8>, label: Seq<char>, policy: RenamePolicy)
    requires
        label.len() > LABEL_MAX || !is_latin1(label),
    ensures
        relabelled(hdr, label, policy) is Err,
{
}

/// A stem whose link text does not fit the field is refused, whatever the recording holds.
pub proof fn lemma_long_stem_refused(kcd: Seq<u8>, stem: Seq<u8>)
    requires
        hdr_tag(stem).len() > FIELD_WIDTH,
    ensures
        relinked(kcd, stem) is Err,
{
}

/// A recording that is relinked keeps its length, and every byte outside the field.
pub proof fn lemma_relinked_in_place(kcd: Seq<u8>, stem: Seq<u8>)
    ensures
        relinked(kcd, stem) matches Ok(bytes) ==> {
            &&& locate(kcd) matches Ok(pos)
            &&& bytes.len() == kcd.len()
            &&& forall|i: int|
                0 <= i < kcd.len() && !(pos + LINK_OFFSET <= i < pos + LINK_OFFSET + FIELD_WIDTH)
                    ==> bytes[i] == kcd[i]
            &&& bytes.subrange(pos + LINK_OFFSET, pos + LINK_OFFSET + FIELD_WIDTH) == pad_nuls(
                hdr_tag(stem),
                FIELD_WIDTH as nat,
            )
        },
{
    if let Ok(bytes) = relinked(kcd, stem) {
        lemma_located(kcd);
        let pos = locate(kcd)->Ok_0;
        assert(bytes.subrange(pos + LINK_OFFSET, pos + LINK_OFFSET + FIELD_WIDTH) =~= pad_nuls(
            hdr_tag(stem),
            FIELD_WIDTH as nat,
        ));
    }
}

/// A session that is linked grows by the 256 bytes of the field, and keeps every byte of
/// its own: the header before the field, the rest behind it.
pub proof fn lemma_raf_linked_grows(raf: Seq<u8>, path: Seq<u8>)
    ensures
        raf_linked(raf, path) matches Ok(bytes) ==> {
            &&& bytes.len() == raf.len() + FIELD_WIDTH
            &&& bytes.take(RAF_HEADER_LEN as int) == raf.take(RAF_HEADER_LEN as int)
            &&& bytes.skip(RAF_HEADER_LEN + FIELD_WIDTH) == raf.skip(RAF_HEADER_LEN as int)
        },
{
    if let Ok(bytes) = raf_linked(raf, path) {
        assert(bytes.take(RAF_HEADER_LEN as int) =~= raf.take(RAF_HEADER_LEN as int));
        assert(bytes.skip(RAF_HEADER_LEN + FIELD_WIDTH) =~= raf.skip(RAF_HEADER_LEN as int));
    }
}

} // verus!

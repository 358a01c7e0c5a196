//! The index of a recording's video clips (HDR).
//!
//! An index is four opaque bytes, a little-endian 32-bit count, and one
//! 292-byte record per clip: sixteen opaque bytes, the clip's path in a
//! NUL-padded field of 256 bytes, and twenty opaque bytes.
use crate::error::KcdError;
use crate::text::{lemma_content_len, lemma_pad_strip, lemma_strip_pad, pad_nuls, push_from, push_nuls,
    strip_nuls, trimmed_len, FIELD_WIDTH};
use vstd::prelude::*;
use vstd::slice::slice_subrange;

verus! {

/// Number of bytes in one record.
pub const BLOCK_LEN: usize = 292;

/// Number of bytes before the first record: the magic and the count.
pub const PREAMBLE_LEN: usize = 8;

/// One record of the index: the slot of one clip.
#[derive(Debug, Clone, PartialEq, Eq)]
pub struct VideoBlock {
    /// Sixteen bytes that are carried along as they are.
    pub head: [u8; 16],
    /// The clip's path, backslash between its parts, without padding.
    pub filepath: Vec<u8>,
    /// Twenty bytes that are carried along as they are.
    pub tail: [u8; 20],
}

/// The index as a whole.
#[derive(Debug, Clone, PartialEq, Eq)]
pub struct KCDVideoHDR {
    /// Four bytes that are carried along as they are.
    pub header: [u8; 4],
    /// The number of records that the file announced when it was read.
    pub count: u32,
    /// The records, in the file's order.
    pub data: Vec<VideoBlock>,
}

/// A record as a mathematical value.
pub struct BlockView {
    pub head: Seq<u8>,
    pub path: Seq<u8>,
    pub tail: Seq<u8>,
}

/// An index as a mathematical value.
pub struct HdrView {
    pub magic: Seq<u8>,
    pub count: u32,
    pub blocks: Seq<BlockView>,
}

impl View for VideoBlock {
    type V = BlockView;

    open spec fn view(&self) -> BlockView {
        BlockView { head: self.head@, path: self.filepath@, tail: self.tail@ }
    }
}

/// The records of a vector as mathematical values.
pub open spec fn block_views(data: Seq<VideoBlock>) -> Seq<BlockView> {
    Seq::new(data.len(), |i: int| data[i]@)
}

impl View for KCDVideoHDR {
    type V = HdrView;

    open spec fn view(&self) -> HdrView {
        HdrView { magic: self.header@, count: self.count, blocks: block_views(self.data@) }
    }
}

/// The number that four bytes hold, least significant byte first.
pub open spec fn le_u32(b: Seq<u8>) -> nat {
    (b[0] + 256 * b[1] + 65536 * b[2] + 16777216 * b[3]) as nat
}

/// The four bytes that hold `n`, least significant byte first.
pub open spec fn le_bytes(n: u32) -> Seq<u8> {
    seq![
        (n % 256) as u8,
        ((n / 256) % 256) as u8,
        ((n / 65536) % 256) as u8,
        (n / 16777216) as u8,
    ]
}

/// The record that 292 bytes hold.
pub open spec fn decode_block(chunk: Seq<u8>) -> BlockView {
    BlockView {
        head: chunk.subrange(0, 16),
        path: strip_nuls(chunk.subrange(16, 272)),
        tail: chunk.subrange(272, 292),
    }
}

/// The bytes of a record: 292 of them where the path fits its field.
pub open spec fn encode_block(block: BlockView) -> Seq<u8> {
    block.head + pad_nuls(block.path, FIELD_WIDTH as nat) + block.tail
}

/// The records that `body` holds: one for each full run of 292 bytes. What follows the last
/// full run is left out.
pub open spec fn decode_blocks(body: Seq<u8>) -> Seq<BlockView> {
    Seq::new(
        (body.len() / BLOCK_LEN as nat) as nat,
        |i: int| decode_block(body.subrange(292 * i, 292 * i + 292)),
    )
}

/// The bytes of all records, one after the other.
pub open spec fn encode_blocks(blocks: Seq<BlockView>) -> Seq<u8>
    decreases blocks.len(),
{
    if blocks.len() == 0 {
        Seq::empty()
    } else {
        encode_blocks(blocks.drop_last()) + encode_block(blocks.last())
    }
}

/// A record whose opaque parts have their widths.
pub open spec fn block_shaped(block: BlockView) -> bool {
    block.head.len() == 16 && block.tail.len() == 20
}

/// Index of the first record at or behind `from` whose path is longer than its field.
pub open spec fn first_too_long(blocks: Seq<BlockView>, from: int) -> Option<int>
    decreases blocks.len() - from,
{
    if from < 0 || from >= blocks.len() {
        None
    } else if blocks[from].path.len() > FIELD_WIDTH {
        Some(from)
    } else {
        first_too_long(blocks, from + 1)
    }
}

/// The four bytes at `at` as a little-endian number.
pub fn read_le_u32(data: &[u8], at: usize) -> (n: u32)
    requires
        at + 4 <= data@.len(),
    ensures
        n == le_u32(data@.subrange(at as int, at + 4)),
{
    let b0 = data[at] as u32;
    let b1 = data[at + 1] as u32;
    let b2 = data[at + 2] as u32;
    let b3 = data[at + 3] as u32;
    b0 + 256 * b1 + 65536 * b2 + 16777216 * b3
}

/// Appends `n` to `out` as four bytes, least significant first.
pub fn push_le_u32(out: &mut Vec<u8>, n: u32)
    ensures
        final(out)@ == old(out)@ + le_bytes(n),
{
    out.push((n % 256) as u8);
    out.push(((n / 256) % 256) as u8);
    out.push(((n / 65536) % 256) as u8);
    out.push((n / 16777216) as u8);
    assert(out@ =~= old(out)@ + le_bytes(n));
}

/// The number that the four bytes of `n` hold is `n`.
pub proof fn lemma_le_bytes(n: u32)
    ensures
        le_bytes(n).len() == 4,
        le_u32(le_bytes(n)) == n,
{
    let n0 = n as int;
    let q1 = n0 / 256;
    let q2 = n0 / 65536;
    let q3 = n0 / 16777216;
    assert(q2 == q1 / 256);
    assert(q3 == q2 / 256);
    assert(n0 == 256 * q1 + n0 % 256);
    assert(q1 == 256 * q2 + q1 % 256);
    assert(q2 == 256 * q3 + q2 % 256);
    assert(q3 < 256);
}

/// Four bytes hold a number of 32 bits, and are the bytes of that number.
pub proof fn lemma_le_u32(b: Seq<u8>)
    requires
        b.len() == 4,
    ensures
        le_u32(b) <= u32::MAX,
        le_bytes(le_u32(b) as u32) == b,
{
    let m = le_u32(b) as int;
    assert(m / 16777216 == b[3]);
    assert(m / 65536 == b[2] + 256 * b[3]);
    assert(m / 256 == b[1] + 256 * b[2] + 65536 * b[3]);
    assert(m % 256 == b[0]);
    assert((m / 256) % 256 == b[1]);
    assert((m / 65536) % 256 == b[2]);
    assert(le_bytes(m as u32) =~= b);
}

/// The `N` bytes of `data` at `at`.
pub fn bytes_at<const N: usize>(data: &[u8], at: usize) -> (taken: [u8; N])
    requires
        at + N <= data@.len(),
    ensures
        taken@ == data@.subrange(at as int, at + N),
{
    let len = data.len();
    let mut taken = [0u8; N];
    let mut i: usize = 0;
    while i < N
        invariant
            i <= N,
            at + N <= len == data@.len(),
            taken@.len() == N,
            forall|k: int| 0 <= k < i ==> taken@[k] == data@[at + k],
        decreases N - i,
    {
        taken[i] = data[at + i];
        i = i + 1;
    }
    assert(taken@ =~= data@.subrange(at as int, at + N));
    taken
}

impl VideoBlock {
    /// The text of a padded field: its bytes without the NUL bytes at its end.
    pub fn map_to_string(data: &[u8]) -> (text: Vec<u8>)
        ensures
            text@ == strip_nuls(data@),
    {
        let n = trimmed_len(data);
        let mut text: Vec<u8> = Vec::new();
        let mut i: usize = 0;
        proof {
            lemma_content_len(data@);
        }
        while i < n
            invariant
                i <= n <= data@.len(),
                text@ == data@.take(i as int),
            decreases n - i,
        {
            text.push(data[i]);
            assert(text@ =~= data@.take(i + 1));
            i = i + 1;
        }
        text
    }

    /// Appends `field` to `output`, padded with NUL to 256 bytes. A longer text is refused
    /// and nothing is appended.
    pub fn write_to_string(output: &mut Vec<u8>, field: &[u8]) -> (r: Result<(), KcdError>)
        ensures
            field@.len() <= FIELD_WIDTH ==> r == Ok::<(), KcdError>(()) && final(output)@ == old(
                output,
            )@ + pad_nuls(field@, FIELD_WIDTH as nat),
            field@.len() > FIELD_WIDTH ==> r == Err::<(), KcdError>(KcdError::NameTooLong)
                && final(output)@ == old(output)@,
    {
        let n = field.len();
        if n > FIELD_WIDTH {
            return Err(KcdError::NameTooLong);
        }
        push_from(output, field, 0);
        push_nuls(output, FIELD_WIDTH - n);
        assert(output@ =~= old(output)@ + pad_nuls(field@, FIELD_WIDTH as nat));
        Ok(())
    }

    /// The record that `chunk` holds, where `chunk` is one full record.
    pub fn from_bytes(chunk: &[u8]) -> (r: Option<VideoBlock>)
        ensures
            chunk@.len() == BLOCK_LEN ==> r is Some && r->Some_0@ == decode_block(chunk@),
            chunk@.len() != BLOCK_LEN ==> r is None,
    {
        if chunk.len() != BLOCK_LEN {
            return None;
        }
        let head: [u8; 16] = bytes_at(chunk, 0);
        let filepath = VideoBlock::map_to_string(slice_subrange(chunk, 16, 272));
        let tail: [u8; 20] = bytes_at(chunk, 272);
        Some(VideoBlock { head, filepath, tail })
    }

    /// Appends the record's 292 bytes to `output`. A path longer than its field is refused
    /// and nothing is appended.
    pub fn write(&self, output: &mut Vec<u8>) -> (r: Result<(), KcdError>)
        ensures
            self@.path.len() <= FIELD_WIDTH ==> r == Ok::<(), KcdError>(()) && final(output)@
                == old(output)@ + encode_block(self@),
            self@.path.len() > FIELD_WIDTH ==> r == Err::<(), KcdError>(KcdError::NameTooLong)
                && final(output)@ == old(output)@,
    {
        if self.filepath.len() > FIELD_WIDTH {
            return Err(KcdError::NameTooLong);
        }
        push_from(output, self.head.as_slice(), 0);
        let _ = VideoBlock::write_to_string(output, self.filepath.as_slice());
        push_from(output, self.tail.as_slice(), 0);
        assert(output@ =~= old(output)@ + encode_block(self@));
        Ok(())
    }

    /// The record's 292 bytes.
    pub fn to_bytes(&self) -> (r: Result<Vec<u8>, KcdError>)
        ensures
            self@.path.len() <= FIELD_WIDTH ==> r is Ok && r->Ok_0@ == encode_block(self@),
            self@.path.len() > FIELD_WIDTH ==> r == Err::<Vec<u8>, KcdError>(
                KcdError::NameTooLong,
            ),
    {
        let mut out: Vec<u8> = Vec::new();
        match self.write(&mut out) {
            Ok(()) => Ok(out),
            Err(e) => Err(e),
        }
    }
}

/// The number of records that the bytes of an index announce.
pub open spec fn announced(bytes: Seq<u8>) -> nat {
    le_u32(bytes.subrange(4, 8))
}

/// The number of records that the bytes of an index hold in full, up to the number announced.
pub open spec fn held(bytes: Seq<u8>) -> nat {
    let present = (bytes.len() - PREAMBLE_LEN) / BLOCK_LEN as int;
    if announced(bytes) <= present {
        announced(bytes)
    } else {
        present as nat
    }
}

/// The number of records that were announced and are not there in full.
pub open spec fn dropped(bytes: Seq<u8>) -> nat {
    (announced(bytes) - held(bytes)) as nat
}

/// The index that `bytes` hold.
///
/// Only the magic and the count have to be there. Of the records, those that are there in
/// full are read, up to the number announced; a record cut short and whatever follows the
/// announced records are left out.
pub open spec fn decode(bytes: Seq<u8>) -> Result<HdrView, KcdError> {
    if bytes.len() < PREAMBLE_LEN {
        Err(KcdError::TruncatedInput)
    } else {
        Ok(
            HdrView {
                magic: bytes.subrange(0, 4),
                count: announced(bytes) as u32,
                blocks: decode_blocks(bytes.subrange(8, 8 + 292 * (held(bytes) as int))),
            },
        )
    }
}

/// The bytes of an index: the magic, the number of records held, and the records.
///
/// The count written is the number of records, whatever `count` says. An index with more
/// records than 32 bits can count is refused, and so is one with a path that does not fit
/// its field: the error names the first such record.
pub open spec fn encode(index: HdrView) -> Result<Seq<u8>, KcdError> {
    if index.blocks.len() > u32::MAX {
        Err(KcdError::TooManyRecords)
    } else {
        match first_too_long(index.blocks, 0) {
            Some(i) => Err(KcdError::PathTooLong { record: i as usize }),
            None => Ok(
                index.magic + le_bytes(index.blocks.len() as u32) + encode_blocks(index.blocks),
            ),
        }
    }
}

/// Index of the first record whose path is longer than its field.
pub fn find_too_long(data: &Vec<VideoBlock>) -> (found: Option<usize>)
    ensures
        match first_too_long(block_views(data@), 0) {
            Some(i) => found == Some(i as usize) && 0 <= i < data@.len(),
            None => found is None,
        },
{
    let mut i: usize = 0;
    while i < data.len()
        invariant
            i <= data@.len(),
            first_too_long(block_views(data@), 0) == first_too_long(block_views(data@), i as int),
        decreases data@.len() - i,
    {
        if data[i].filepath.len() > FIELD_WIDTH {
            return Some(i);
        }
        i = i + 1;
    }
    None
}

impl KCDVideoHDR {
    /// The records that `bytes` hold: one for each full run of 292 bytes.
    pub fn try_read_video_block(bytes: &[u8]) -> (blocks: Vec<VideoBlock>)
        ensures
            block_views(blocks@) == decode_blocks(bytes@),
    {
        let len = bytes.len();
        let n = len / BLOCK_LEN;
        let mut blocks: Vec<VideoBlock> = Vec::new();
        let mut i: usize = 0;
        while i < n
            invariant
                i <= n,
                len == bytes@.len(),
                n == len / BLOCK_LEN,
                blocks@.len() == i,
                forall|k: int|
                    0 <= k < i ==> (#[trigger] blocks@[k])@ == decode_block(
                        bytes@.subrange(292 * k, 292 * k + 292),
                    ),
            decreases n - i,
        {
            let chunk = slice_subrange(bytes, BLOCK_LEN * i, BLOCK_LEN * i + BLOCK_LEN);
            if let Some(block) = VideoBlock::from_bytes(chunk) {
                blocks.push(block);
            }
            i = i + 1;
        }
        assert(block_views(blocks@) =~= decode_blocks(bytes@));
        blocks
    }

    /// Appends the bytes of all records to `output`. Where a path does not fit its field,
    /// nothing is appended and the error names the first such record.
    pub fn try_write_video_block(output: &mut Vec<u8>, data: &Vec<VideoBlock>) -> (r: Result<
        (),
        KcdError,
    >)
        ensures
            match first_too_long(block_views(data@), 0) {
                Some(i) => r == Err::<(), KcdError>(KcdError::PathTooLong { record: i as usize })
                    && final(output)@ == old(output)@,
                None => r == Ok::<(), KcdError>(()) && final(output)@ == old(output)@
                    + encode_blocks(block_views(data@)),
            },
    {
        if let Some(record) = find_too_long(data) {
            return Err(KcdError::PathTooLong { record });
        }
        let ghost views = block_views(data@);
        let mut i: usize = 0;
        assert(encode_blocks(views.take(0)) =~= Seq::<u8>::empty());
        while i < data.len()
            invariant
                i <= data@.len(),
                views == block_views(data@),
                first_too_long(views, i as int) is None,
                output@ == old(output)@ + encode_blocks(views.take(i as int)),
            decreases data@.len() - i,
        {
            let _ = data[i].write(output);
            proof {
                assert(views.take(i + 1).drop_last() =~= views.take(i as int));
                assert(views.take(i + 1).last() == data@[i as int]@);
                assert(output@ =~= old(output)@ + encode_blocks(views.take(i + 1)));
            }
            i = i + 1;
        }
        assert(views.take(data@.len() as int) =~= views);
        Ok(())
    }

    /// Reads an index and says how many announced records were not there in full.
    pub fn from_bytes_lenient(data: &[u8]) -> (r: Result<(KCDVideoHDR, u32), KcdError>)
        ensures
            match decode(data@) {
                Ok(index) => r is Ok && r->Ok_0.0@ == index && r->Ok_0.1 == dropped(data@),
                Err(e) => r == Err::<(KCDVideoHDR, u32), KcdError>(e),
            },
    {
        let len = data.len();
        if len < PREAMBLE_LEN {
            return Err(KcdError::TruncatedInput);
        }
        let header: [u8; 4] = bytes_at(data, 0);
        let count = read_le_u32(data, 4);
        let present = (len - PREAMBLE_LEN) / BLOCK_LEN;
        let kept = if count as usize <= present {
            count as usize
        } else {
            present
        };
        let body = slice_subrange(data, PREAMBLE_LEN, PREAMBLE_LEN + BLOCK_LEN * kept);
        let blocks = KCDVideoHDR::try_read_video_block(body);
        let missing = count - kept as u32;
        Ok((KCDVideoHDR { header, count, data: blocks }, missing))
    }

    /// Reads an index, leaving out without notice the records that are not there in full.
    pub fn from_bytes(data: &[u8]) -> (r: Result<KCDVideoHDR, KcdError>)
        ensures
            match decode(data@) {
                Ok(index) => r is Ok && r->Ok_0@ == index,
                Err(e) => r == Err::<KCDVideoHDR, KcdError>(e),
            },
    {
        match KCDVideoHDR::from_bytes_lenient(data) {
            Ok((index, _)) => Ok(index),
            Err(e) => Err(e),
        }
    }

    /// The bytes of the index.
    pub fn to_bytes(&self) -> (r: Result<Vec<u8>, KcdError>)
        ensures
            match encode(self@) {
                Ok(bytes) => r is Ok && r->Ok_0@ == bytes,
                Err(e) => r == Err::<Vec<u8>, KcdError>(e),
            },
            r is Ok ==> r->Ok_0@.len() == PREAMBLE_LEN + BLOCK_LEN * self.data@.len(),
            r is Ok ==> announced(r->Ok_0@) == self.data@.len(),
    {
        let n = self.data.len();
        if n > u32::MAX as usize {
            return Err(KcdError::TooManyRecords);
        }
        let mut out: Vec<u8> = Vec::new();
        push_from(&mut out, self.header.as_slice(), 0);
        push_le_u32(&mut out, n as u32);
        match KCDVideoHDR::try_write_video_block(&mut out, &self.data) {
            Ok(()) => {
                proof {
                    lemma_encoded_layout(self@);
                }
                Ok(out)
            },
            Err(e) => Err(e),
        }
    }
}

/// The records of an encoded index stand where the layout says: the count tells their
/// number, and record `i` fills the 292 bytes from `8 + 292 * i` on.
pub proof fn lemma_encoded_layout(index: HdrView)
    requires
        index.magic.len() == 4,
        forall|i: int| 0 <= i < index.blocks.len() ==> block_shaped(#[trigger] index.blocks[i]),
    ensures
        encode(index) matches Ok(bytes) ==> {
            &&& bytes.len() == PREAMBLE_LEN + BLOCK_LEN * index.blocks.len()
            &&& announced(bytes) == index.blocks.len()
            &&& forall|i: int|
                0 <= i < index.blocks.len() ==> #[trigger] bytes.subrange(
                    8 + 292 * i,
                    8 + 292 * i + 292,
                ) == encode_block(index.blocks[i])
        },
{
    if let Ok(bytes) = encode(index) {
        let n = index.blocks.len();
        lemma_no_long_path(index.blocks, 0);
        lemma_encoded_blocks(index.blocks);
        lemma_le_bytes(n as u32);
        let body = encode_blocks(index.blocks);
        assert(bytes.subrange(4, 8) =~= le_bytes(n as u32));
        assert forall|i: int| 0 <= i < n implies #[trigger] bytes.subrange(
            8 + 292 * i,
            8 + 292 * i + 292,
        ) == encode_block(index.blocks[i]) by {
            assert(bytes.subrange(8 + 292 * i, 8 + 292 * i + 292) =~= body.subrange(
                292 * i,
                292 * i + 292,
            ));
        }
    }
}

/// Where no path from `from` on is too long, each of them fits its field.
pub proof fn lemma_no_long_path(blocks: Seq<BlockView>, from: int)
    requires
        0 <= from,
        first_too_long(blocks, from) is None,
    ensures
        forall|i: int| from <= i < blocks.len() ==> (#[trigger] blocks[i]).path.len() <= FIELD_WIDTH,
    decreases blocks.len() - from,
{
    if from < blocks.len() {
        lemma_no_long_path(blocks, from + 1);
    }
}

/// Records whose paths fit take 292 bytes each, one after the other.
pub proof fn lemma_encoded_blocks(blocks: Seq<BlockView>)
    requires
        forall|i: int|
            0 <= i < blocks.len() ==> block_shaped(#[trigger] blocks[i]) && blocks[i].path.len()
                <= FIELD_WIDTH,
    ensures
        encode_blocks(blocks).len() == BLOCK_LEN * blocks.len(),
        forall|i: int|
            0 <= i < blocks.len() ==> #[trigger] encode_blocks(blocks).subrange(
                292 * i,
                292 * i + 292,
            ) == encode_block(blocks[i]),
    decreases blocks.len(),
{
    if blocks.len() > 0 {
        let front = blocks.drop_last();
        let n = front.len() as int;
        lemma_encoded_blocks(front);
        let whole = encode_blocks(blocks);
        assert(encode_block(blocks.last()).len() == 292);
        assert forall|i: int| 0 <= i < blocks.len() implies #[trigger] whole.subrange(
            292 * i,
            292 * i + 292,
        ) == encode_block(blocks[i]) by {
            if i < n {
                assert(whole.subrange(292 * i, 292 * i + 292) =~= encode_blocks(front).subrange(
                    292 * i,
                    292 * i + 292,
                ));
                assert(front[i] == blocks[i]);
            } else {
                assert(whole.subrange(292 * i, 292 * i + 292) =~= encode_block(blocks.last()));
            }
        }
    }
}

/// Where each path from `from` on fits its field, none is too long.
pub proof fn lemma_all_paths_fit(blocks: Seq<BlockView>, from: int)
    requires
        0 <= from,
        forall|i: int| from <= i < blocks.len() ==> (#[trigger] blocks[i]).path.len() <= FIELD_WIDTH,
    ensures
        first_too_long(blocks, from) is None,
    decreases blocks.len() - from,
{
    if from < blocks.len() {
        lemma_all_paths_fit(blocks, from + 1);
    }
}

/// A record read from 292 bytes is written as the same bytes.
pub proof fn lemma_block_round_trip(chunk: Seq<u8>)
    requires
        chunk.len() == BLOCK_LEN,
    ensures
        encode_block(decode_block(chunk)) == chunk,
        block_shaped(decode_block(chunk)),
        decode_block(chunk).path.len() <= FIELD_WIDTH,
{
    let field = chunk.subrange(16, 272);
    lemma_pad_strip(field);
    assert(encode_block(decode_block(chunk)) =~= chunk);
}

/// Every record read from bytes has a path that fits its field.
pub proof fn lemma_decoded_paths_fit(body: Seq<u8>)
    ensures
        first_too_long(decode_blocks(body), 0) is None,
{
    let blocks = decode_blocks(body);
    assert forall|i: int| 0 <= i < blocks.len() implies (#[trigger] blocks[i]).path.len()
        <= FIELD_WIDTH by {
        let field = body.subrange(292 * i, 292 * i + 292).subrange(16, 272);
        lemma_content_len(field);
        assert(blocks[i].path == strip_nuls(field));
    }
    lemma_all_paths_fit(blocks, 0);
}

/// Reading one run of 292 bytes less gives the same records but the last.
pub proof fn lemma_decode_blocks_front(body: Seq<u8>, n: int)
    requires
        n >= 1,
        body.len() == 292 * n,
    ensures
        decode_blocks(body).len() == n,
        decode_blocks(body).drop_last() == decode_blocks(body.take(292 * (n - 1))),
        decode_blocks(body).last() == decode_block(body.subrange(292 * (n - 1), 292 * n)),
{
    let blocks = decode_blocks(body);
    let front = body.take(292 * (n - 1));
    assert(front.len() == 292 * (n - 1));
    assert(decode_blocks(front).len() == n - 1);
    assert forall|i: int| 0 <= i < n - 1 implies decode_blocks(front)[i] == blocks[i] by {
        assert(front.subrange(292 * i, 292 * i + 292) =~= body.subrange(292 * i, 292 * i + 292));
    }
    assert(blocks.drop_last() =~= decode_blocks(front));
}

/// Records read from whole runs of 292 bytes are written as the same bytes.
pub proof fn lemma_blocks_round_trip(body: Seq<u8>, n: int)
    requires
        n >= 0,
        body.len() == 292 * n,
    ensures
        encode_blocks(decode_blocks(body)) == body,
    decreases n,
{
    let blocks = decode_blocks(body);
    if n == 0 {
        assert(blocks.len() == 0);
        assert(encode_blocks(blocks) =~= body);
    } else {
        let front = body.take(292 * (n - 1));
        let chunk = body.subrange(292 * (n - 1), 292 * n);
        lemma_decode_blocks_front(body, n);
        lemma_blocks_round_trip(front, n - 1);
        lemma_block_round_trip(chunk);
        assert(encode_blocks(blocks) == encode_blocks(decode_blocks(front)) + encode_block(
            decode_block(chunk),
        ));
        assert(front + chunk =~= body);
    }
}

/// An index that is read from its magic, its count and exactly the records that the count
/// announces is written as the same bytes.
pub proof fn lemma_round_trip(raw: Seq<u8>)
    requires
        raw.len() >= PREAMBLE_LEN,
        raw.len() == PREAMBLE_LEN + BLOCK_LEN * announced(raw),
    ensures
        decode(raw) matches Ok(index) && encode(index) == Ok::<Seq<u8>, KcdError>(raw),
{
    let n = announced(raw);
    let body = raw.subrange(8, 8 + 292 * (held(raw) as int));
    lemma_le_u32(raw.subrange(4, 8));
    assert(held(raw) == n);
    assert(body.len() == 292 * n);
    lemma_blocks_round_trip(body, n as int);
    lemma_decoded_paths_fit(body);
    assert(decode_blocks(body).len() == n);
    assert(raw.subrange(0, 4) + raw.subrange(4, 8) + body =~= raw);
}

/// An index that the format can hold as it is: the opaque parts have their widths, every
/// path fits its field and does not end in NUL, and 32 bits can count the records.
pub open spec fn index_shaped(index: HdrView) -> bool {
    &&& index.magic.len() == 4
    &&& index.blocks.len() <= u32::MAX
    &&& forall|i: int|
        0 <= i < index.blocks.len() ==> {
            let block = #[trigger] index.blocks[i];
            &&& block_shaped(block)
            &&& block.path.len() <= FIELD_WIDTH
            &&& block.path.len() == 0 || block.path.last() != 0u8
        }
}

/// A record that the format can hold as it is comes back from its 292 bytes.
pub proof fn lemma_block_encode_decode(block: BlockView)
    requires
        block_shaped(block),
        block.path.len() <= FIELD_WIDTH,
        block.path.len() == 0 || block.path.last() != 0u8,
    ensures
        encode_block(block).len() == BLOCK_LEN,
        decode_block(encode_block(block)) == block,
{
    let chunk = encode_block(block);
    let field = pad_nuls(block.path, FIELD_WIDTH as nat);
    lemma_strip_pad(block.path, FIELD_WIDTH as nat);
    assert(chunk.subrange(0, 16) =~= block.head);
    assert(chunk.subrange(16, 272) =~= field);
    assert(chunk.subrange(272, 292) =~= block.tail);
}

/// An index that the format can hold as it is comes back from its bytes, with the number
/// of its records as its count.
pub proof fn lemma_encode_decode(index: HdrView)
    requires
        index_shaped(index),
    ensures
        encode(index) matches Ok(bytes) && decode(bytes) == Ok::<HdrView, KcdError>(
            HdrView {
                magic: index.magic,
                count: index.blocks.len() as u32,
                blocks: index.blocks,
            },
        ),
{
    let n = index.blocks.len();
    lemma_all_paths_fit(index.blocks, 0);
    lemma_encoded_layout(index);
    let bytes = encode(index)->Ok_0;
    lemma_encoded_blocks(index.blocks);
    let body = bytes.subrange(8, 8 + 292 * (held(bytes) as int));
    assert(held(bytes) == n);
    assert(body =~= encode_blocks(index.blocks));
    assert(bytes.subrange(0, 4) =~= index.magic);
    assert forall|i: int| 0 <= i < n implies decode_blocks(body)[i] == index.blocks[i] by {
        lemma_block_encode_decode(index.blocks[i]);
    }
    assert(decode_blocks(body) =~= index.blocks);
}

} // verus!

//! Putting a text field of fixed width into the bytes of a file.
//!
//! The file is cut in three: what stands before the field, the field, and what
//! stands behind it. The first and the last part are taken from the file as
//! they are; the field is the new text and its padding.
use crate::error::KcdError;
use crate::text::{pad_nuls, push_from, push_nuls, FIELD_WIDTH};
use vstd::prelude::*;
use vstd::slice::slice_subrange;

verus! {

/// The three parts of a file that gets a field rewritten.
#[derive(Debug, Clone, PartialEq, Eq)]
pub struct SpliceTarget<'a> {
    /// The bytes of the file before the field.
    pub header_prefix: &'a [u8],
    /// The new text, padded with NUL to 256 bytes.
    pub replacement_field: Vec<u8>,
    /// The bytes of the file behind the field.
    pub remainder: &'a [u8],
}

/// `data` with the 256 bytes from `at` on replaced by `text` and its padding.
pub open spec fn overwritten(data: Seq<u8>, at: int, text: Seq<u8>) -> Seq<u8> {
    data.take(at) + pad_nuls(text, FIELD_WIDTH as nat) + data.skip(at + FIELD_WIDTH)
}

/// `data` with `text` and its padding put in at `at`, as 256 bytes more.
pub open spec fn inserted(data: Seq<u8>, at: int, text: Seq<u8>) -> Seq<u8> {
    data.take(at) + pad_nuls(text, FIELD_WIDTH as nat) + data.skip(at)
}

impl<'a> SpliceTarget<'a> {
    /// The field has its width.
    pub open spec fn wf(&self) -> bool {
        self.replacement_field@.len() == FIELD_WIDTH
    }

    /// The three parts put together.
    pub open spec fn assembled(&self) -> Seq<u8> {
        self.header_prefix@ + self.replacement_field@ + self.remainder@
    }

    /// The bytes that the file has with the field in it.
    pub fn assemble(&self) -> (bytes: Vec<u8>)
        ensures
            bytes@ == self.assembled(),
    {
        let mut bytes: Vec<u8> = Vec::new();
        push_from(&mut bytes, self.header_prefix, 0);
        push_from(&mut bytes, self.replacement_field.as_slice(), 0);
        push_from(&mut bytes, self.remainder, 0);
        assert(bytes@ =~= self.assembled());
        bytes
    }

    /// `text` and its padding.
    fn field(text: &[u8]) -> (field: Vec<u8>)
        requires
            text@.len() <= FIELD_WIDTH,
        ensures
            field@ == pad_nuls(text@, FIELD_WIDTH as nat),
            field@.len() == FIELD_WIDTH,
    {
        let mut field: Vec<u8> = Vec::new();
        push_from(&mut field, text, 0);
        push_nuls(&mut field, FIELD_WIDTH - text.len());
        assert(field@ =~= pad_nuls(text@, FIELD_WIDTH as nat));
        field
    }

    /// Cuts `data` so that `text` takes the place of the 256 bytes from `at` on.
    ///
    /// A text that does not fit the field is refused, and so is a field that does not lie
    /// within `data`. What is assembled has the length of `data`.
    pub fn overwrite(data: &'a [u8], at: usize, text: &[u8]) -> (r: Result<
        SpliceTarget<'a>,
        KcdError,
    >)
        ensures
            text@.len() > FIELD_WIDTH ==> r == Err::<SpliceTarget<'a>, KcdError>(
                KcdError::NameTooLong,
            ),
            text@.len() <= FIELD_WIDTH && data@.len() < at + FIELD_WIDTH ==> r == Err::<
                SpliceTarget<'a>,
                KcdError,
            >(KcdError::TruncatedInput),
            text@.len() <= FIELD_WIDTH && at + FIELD_WIDTH <= data@.len() ==> {
                &&& r matches Ok(target)
                &&& target.wf()
                &&& target.header_prefix@ == data@.take(at as int)
                &&& target.replacement_field@ == pad_nuls(text@, FIELD_WIDTH as nat)
                &&& target.remainder@ == data@.skip(at + FIELD_WIDTH)
                &&& target.assembled() == overwritten(data@, at as int, text@)
                &&& target.assembled().len() == data@.len()
            },
    {
        if text.len() > FIELD_WIDTH {
            return Err(KcdError::NameTooLong);
        }
        let len = data.len();
        if at > len || len - at < FIELD_WIDTH {
            return Err(KcdError::TruncatedInput);
        }
        let header_prefix = slice_subrange(data, 0, at);
        let remainder = slice_subrange(data, at + FIELD_WIDTH, len);
        assert(header_prefix@ =~= data@.take(at as int));
        assert(remainder@ =~= data@.skip(at + FIELD_WIDTH));
        Ok(SpliceTarget { header_prefix, replacement_field: SpliceTarget::field(text), remainder })
    }

    /// Cuts `data` so that `text` is put in at `at`, before the bytes that stand there.
    ///
    /// A text that does not fit the field is refused, and so is a place that does not lie
    /// within `data`. What is assembled is 256 bytes longer than `data`.
    pub fn insert(data: &'a [u8], at: usize, text: &[u8]) -> (r: Result<SpliceTarget<'a>, KcdError>)
        ensures
            text@.len() > FIELD_WIDTH ==> r == Err::<SpliceTarget<'a>, KcdError>(
                KcdError::NameTooLong,
            ),
            text@.len() <= FIELD_WIDTH && data@.len() < at ==> r == Err::<
                SpliceTarget<'a>,
                KcdError,
            >(KcdError::TruncatedInput),
            text@.len() <= FIELD_WIDTH && at <= data@.len() ==> {
                &&& r matches Ok(target)
                &&& target.wf()
                &&& target.header_prefix@ == data@.take(at as int)
                &&& target.replacement_field@ == pad_nuls(text@, FIELD_WIDTH as nat)
                &&& target.remainder@ == data@.skip(at as int)
                &&& target.assembled() == inserted(data@, at as int, text@)
                &&& target.assembled().len() == data@.len() + FIELD_WIDTH
            },
    {
        if text.len() > FIELD_WIDTH {
            return Err(KcdError::NameTooLong);
        }
        let len = data.len();
        if at > len {
            return Err(KcdError::TruncatedInput);
        }
        let header_prefix = slice_subrange(data, 0, at);
        let remainder = slice_subrange(data, at, len);
        assert(header_prefix@ =~= data@.take(at as int));
        assert(remainder@ =~= data@.skip(at as int));
        Ok(SpliceTarget { header_prefix, replacement_field: SpliceTarget::field(text), remainder })
    }
}

} // verus!

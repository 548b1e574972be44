//! The alignment of buffer offsets and sizes, and the padding that brings data up to it.
use std::borrow::Cow;
use vstd::prelude::*;

verus! {

/// The number of bytes that every offset and every size of a buffer copy is a multiple of.
pub open spec fn alignment() -> int {
    4
}

/// The least multiple of the alignment that is at least `size`.
pub open spec fn align_up(size: int) -> int {
    (size + alignment() - 1) / alignment() * alignment()
}

/// The size of the block for `len` bytes of data and an optional padding.
pub open spec fn physical_size(len: nat, padding: Option<u64>) -> int {
    align_up(len + padding.unwrap_or(0))
}

/// `data`, followed by as many zero bytes as bring its length up to a multiple of the alignment.
pub open spec fn padded(data: Seq<u8>) -> Seq<u8> {
    data + Seq::new((align_up(data.len() as int) - data.len()) as nat, |i: int| 0u8)
}

/// The constant `wgpu::COPY_BUFFER_ALIGNMENT`, whose value is 4.
#[verifier::external_body]
pub(crate) fn copy_buffer_alignment() -> (bytes: u64)
    ensures
        bytes == alignment(),
{
    wgpu::COPY_BUFFER_ALIGNMENT
}

/// Rounds `size` up to a multiple of the alignment.
pub fn round_up(size: u64) -> (rounded: u64)
    requires
        size + alignment() - 1 <= u64::MAX,
    ensures
        rounded == align_up(size as int),
        size <= rounded < size + 4,
        rounded % 4 == 0,
{
    let align: u64 = copy_buffer_alignment();
    let raised: u64 = size + (align - 1);
    assert(raised & !((align - 1) as u64) == raised / 4 * 4) by (bit_vector)
        requires
            align == 4u64,
    ;
    raised & !(align - 1)
}

/// Pads a byte slice to be a multiple of the alignment.
pub fn pad_data(data: &[u8]) -> (padded_data: Cow<'_, [u8]>)
    requires
        data@.len() + alignment() - 1 <= usize::MAX,
    ensures
        padded_data@ == padded(data@),
        data@.len() <= padded_data@.len() < data@.len() + 4,
        padded_data@.len() % 4 == 0,
        forall|i: int| 0 <= i < data@.len() ==> #[trigger] padded_data@[i] == data@[i],
        forall|i: int| data@.len() <= i < padded_data@.len() ==> #[trigger] padded_data@[i] == 0u8,
        padded_data is Borrowed <==> data@.len() as int % alignment() == 0,
{
    let align: usize = copy_buffer_alignment() as usize;
    let unpadded_len: usize = data.len();
    let raised: usize = unpadded_len + (align - 1);
    let padded_len: usize = raised & !(align - 1);
    assert(padded_len == align_up(unpadded_len as int)) by {
        assert(raised & !((align - 1) as usize) == raised / 4 * 4) by (bit_vector)
            requires
                align == 4usize,
        ;
    }
    if unpadded_len == padded_len {
        assert(padded(data@) =~= data@);
        return Cow::Borrowed(data);
    }
    let mut padded_data: Vec<u8> = vstd::slice::slice_to_vec(data);
    padded_data.resize(padded_len, 0);
    assert(padded_data@ =~= padded(data@)) by {
        assert(padded_data@.subrange(0, unpadded_len as int) == data@);
        assert forall|i: int| 0 <= i < unpadded_len implies padded_data@[i] == data@[i] by {
            assert(padded_data@.subrange(0, unpadded_len as int)[i] == data@[i]);
        }
    }
    Cow::Owned(padded_data)
}

} // verus!

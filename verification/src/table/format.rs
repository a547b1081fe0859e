//! On-disk table format descriptors: block handles, the file footer with
//! its magic constant, and the decoding of a stored block's trailer.

use vstd::prelude::*;
use crate::errors::{RubbleError, RubbleResult};
use crate::status::Status;
use crate::util::coding::{
    decode_fixed32, fixed32_bytes, fixed32_value, get_varint64, lemma_fixed32_round_trip,
    lemma_fixed32_value_injective, lemma_varint_encoding_len, lemma_varint_len_bounds,
    lemma_varint_round_trip, put_fixed32, put_varint64, varint_encoding, varint_len, varint_parse,
    ENDIANNESS,
};

verus! {

/// Longest possible encoding of a block handle: two varint64 values.
pub const MAX_ENCODED_LENGTH: usize = 10 + 10;

/// The 64-bit constant that closes every table file.
pub const TABLE_MAGIC_NUMBER: u64 = 0xdb4775248b80fb57;

/// Low fixed32 word of the magic constant, stored first.
pub const MAGIC_LO: u32 = 0x8b80fb57;

/// High fixed32 word of the magic constant, stored second.
pub const MAGIC_HI: u32 = 0xdb477524;

/// 1-byte compression type plus a 32-bit checksum after every block.
pub const BLOCK_TRAILER_SIZE: usize = 5;

/// Exact encoded length of a footer: two padded handles plus the magic.
pub const ENCODED_LENGTH: usize = 2 * MAX_ENCODED_LENGTH + 8;

/// Options honoured when resolving a block handle to bytes.
pub struct ReadOptions {
    pub verify_checksums: bool,
}

impl ReadOptions {
    /// Default read options: no checksum verification.
    pub fn new() -> (r: ReadOptions)
        ensures
            !r.verify_checksums,
    {
        ReadOptions { verify_checksums: false }
    }
}

/// Locates a byte range within a table file.
#[derive(Clone, Copy, PartialEq, Eq, Structural, Debug)]
pub struct BlockHandle {
    pub offset: u64,
    pub size: u64,
}

/// The two varint64 fields of a handle, offset first.
pub open spec fn handle_encoding(h: BlockHandle) -> Seq<u8> {
    varint_encoding(h.offset as nat) + varint_encoding(h.size as nat)
}

/// The handle stored at the front of `s` and how many bytes it takes, or
/// `None` when either varint is malformed or oversized.
pub open spec fn handle_parse(s: Seq<u8>) -> Option<(BlockHandle, nat)> {
    match varint_parse(s, 10) {
        Some(p1) => if p1.0 <= 0xffffffffffffffff {
            match varint_parse(s.skip(p1.1 as int), 10) {
                Some(p2) => if p2.0 <= 0xffffffffffffffff {
                    Some((BlockHandle { offset: p1.0 as u64, size: p2.0 as u64 }, p1.1 + p2.1))
                } else {
                    None
                },
                None => None,
            }
        } else {
            None
        },
        None => None,
    }
}

/// A handle's encoding reads back as that handle, whatever follows it.
pub proof fn lemma_handle_round_trip(h: BlockHandle, rest: Seq<u8>)
    ensures
        handle_parse(handle_encoding(h) + rest) == Some(
            (h, varint_len(h.offset as nat) + varint_len(h.size as nat)),
        ),
        handle_encoding(h).len() == varint_len(h.offset as nat) + varint_len(h.size as nat),
        handle_encoding(h).len() <= MAX_ENCODED_LENGTH,
{
    let s = handle_encoding(h) + rest;
    lemma_varint_len_bounds(h.offset as nat);
    lemma_varint_len_bounds(h.size as nat);
    lemma_varint_encoding_len(h.offset as nat);
    lemma_varint_encoding_len(h.size as nat);
    assert(s =~= varint_encoding(h.offset as nat) + (varint_encoding(h.size as nat) + rest));
    lemma_varint_round_trip(h.offset as nat, varint_encoding(h.size as nat) + rest, 10);
    let n1 = varint_len(h.offset as nat);
    assert(s.skip(n1 as int) =~= varint_encoding(h.size as nat) + rest);
    lemma_varint_round_trip(h.size as nat, rest, 10);
}

impl BlockHandle {
    /// A handle with both fields zeroed, to be filled by a decode.
    pub fn new() -> (r: BlockHandle)
        ensures
            r.offset == 0,
            r.size == 0,
    {
        BlockHandle { offset: 0, size: 0 }
    }

    /// The offset of the block in the file.
    pub fn offset(&self) -> (r: u64)
        ensures
            r == self.offset,
    {
        self.offset
    }

    pub fn set_offset(&mut self, offset: u64)
        ensures
            final(self).offset == offset,
            final(self).size == old(self).size,
    {
        self.offset = offset
    }

    /// Appends the two varint64 fields to `dst`. Both fields must have
    /// been set: a handle still holding the unset sentinel must never be
    /// serialized.
    pub fn encode_to(&self, dst: &mut Vec<u8>)
        requires
            self.offset != 0xffffffffffffffff,
            self.size != 0xffffffffffffffff,
        ensures
            final(dst)@ == old(dst)@ + handle_encoding(*self),
    {
        put_varint64(dst, self.offset);
        put_varint64(dst, self.size);
        proof {
            assert(dst@ =~= old(dst)@ + handle_encoding(*self));
        }
    }

    /// Reads the two varint64 fields from the front of `input` and
    /// returns what follows them; trailing bytes are left for the caller.
    /// On failure the handle is left as it was.
    pub fn decode_from<'a>(&mut self, input: &'a [u8]) -> (r: RubbleResult<&'a [u8]>)
        ensures
            r is Ok <==> handle_parse(input@) is Some,
            r is Ok ==> {
                let (h, n) = handle_parse(input@)->0;
                &&& *final(self) == h
                &&& r->Ok_0@ == input@.skip(n as int)
            },
            r is Err ==> *final(self) == *old(self),
            r is Err ==> r->Err_0 matches RubbleError::Status(Status::IOError(_)),
    {
        match get_varint64(input) {
            Ok((temp, offset)) => match get_varint64(temp) {
                Ok((leftover, size)) => {
                    proof {
                        let p1 = varint_parse(input@, 10)->0;
                        let p2 = varint_parse(temp@, 10)->0;
                        vstd::seq_lib::lemma_seq_skip_of_skip(input@, p1.1 as int, p2.1 as int);
                    }
                    self.offset = offset;
                    self.size = size;
                    Ok(leftover)
                },
                Err(e) => Err(e),
            },
            Err(e) => Err(e),
        }
    }
}

/// The fixed-size trailer of a table file: the metaindex and index block
/// handles, padding, and the magic constant.
#[derive(Debug)]
pub struct Footer {
    pub metaindex_handle: BlockHandle,
    pub index_handle: BlockHandle,
}

/// The exact 48 bytes a footer serializes to: both handles, zero padding
/// up to twice the maximum handle length, then the magic constant as two
/// fixed32 words, low word first.
pub open spec fn footer_encoding(f: Footer) -> Seq<u8>
    recommends
        handle_encoding(f.metaindex_handle).len() + handle_encoding(f.index_handle).len()
            <= 2 * MAX_ENCODED_LENGTH,
{
    let handles = handle_encoding(f.metaindex_handle) + handle_encoding(f.index_handle);
    handles + Seq::new((2 * MAX_ENCODED_LENGTH - handles.len()) as nat, |i: int| 0u8)
        + fixed32_bytes(ENDIANNESS, MAGIC_LO) + fixed32_bytes(ENDIANNESS, MAGIC_HI)
}

/// True iff the last eight bytes of the 48-byte footer region `s` hold
/// the magic constant.
pub open spec fn footer_magic_matches(s: Seq<u8>) -> bool
    recommends
        s.len() >= ENCODED_LENGTH,
{
    &&& fixed32_value(ENDIANNESS, s.skip(2 * MAX_ENCODED_LENGTH as int)) == MAGIC_LO
    &&& fixed32_value(ENDIANNESS, s.skip(2 * MAX_ENCODED_LENGTH + 4 as int)) == MAGIC_HI
}

/// The two handles stored in footer region `s`, or `None` when the magic
/// does not match or a handle is malformed.
pub open spec fn footer_parse(s: Seq<u8>) -> Option<(BlockHandle, BlockHandle)> {
    if !footer_magic_matches(s) {
        None
    } else {
        match handle_parse(s) {
            Some(p1) => match handle_parse(s.skip(p1.1 as int)) {
                Some(p2) => Some((p1.0, p2.0)),
                None => None,
            },
            None => None,
        }
    }
}

impl Footer {
    /// A footer with both handles zeroed, to be filled by a decode.
    pub fn new() -> (r: Footer)
        ensures
            r.metaindex_handle.offset == 0,
            r.metaindex_handle.size == 0,
            r.index_handle.offset == 0,
            r.index_handle.size == 0,
    {
        Footer { metaindex_handle: BlockHandle::new(), index_handle: BlockHandle::new() }
    }

    /// The block handle for the metaindex block.
    pub fn metaindex_handle(&self) -> (r: &BlockHandle)
        ensures
            *r == self.metaindex_handle,
    {
        &self.metaindex_handle
    }

    pub fn set_metaindex_handle(&mut self, handle: BlockHandle)
        ensures
            final(self).metaindex_handle == handle,
            final(self).index_handle == old(self).index_handle,
    {
        self.metaindex_handle = handle
    }

    /// The block handle for the index block.
    pub fn index_handle(&self) -> (r: &BlockHandle)
        ensures
            *r == self.index_handle,
    {
        &self.index_handle
    }

    pub fn set_index_handle(&mut self, handle: BlockHandle)
        ensures
            final(self).index_handle == handle,
            final(self).metaindex_handle == old(self).metaindex_handle,
    {
        self.index_handle = handle
    }

    /// Serializes the footer: both handles, padding to a fixed total, and
    /// the magic constant, always exactly `ENCODED_LENGTH` bytes.
    pub fn encode_to(&self, dst: &mut Vec<u8>)
        requires
            self.metaindex_handle.offset != 0xffffffffffffffff,
            self.metaindex_handle.size != 0xffffffffffffffff,
            self.index_handle.offset != 0xffffffffffffffff,
            self.index_handle.size != 0xffffffffffffffff,
            old(dst)@.len() + ENCODED_LENGTH <= usize::MAX,
        ensures
            final(dst)@ == old(dst)@ + footer_encoding(*self),
            final(dst)@.len() == old(dst)@.len() + ENCODED_LENGTH,
    {
        proof {
            lemma_handle_round_trip(self.metaindex_handle, Seq::empty());
            lemma_handle_round_trip(self.index_handle, Seq::empty());
        }
        let original_size = dst.len();
        self.metaindex_handle.encode_to(dst);
        self.index_handle.encode_to(dst);
        let ghost handles = handle_encoding(self.metaindex_handle) + handle_encoding(
            self.index_handle,
        );
        proof {
            assert(dst@ =~= old(dst)@ + handles);
        }
        let target = original_size + 2 * MAX_ENCODED_LENGTH;
        while dst.len() < target
            invariant
                target == original_size + 2 * MAX_ENCODED_LENGTH,
                original_size == old(dst)@.len(),
                handles.len() <= 2 * MAX_ENCODED_LENGTH,
                old(dst)@.len() + ENCODED_LENGTH <= usize::MAX,
                handles.len() <= dst@.len() - original_size <= 2 * MAX_ENCODED_LENGTH,
                dst@ == old(dst)@ + handles + Seq::new(
                    (dst@.len() - original_size - handles.len()) as nat,
                    |i: int| 0u8,
                ),
            decreases target - dst@.len(),
        {
            dst.push(0);
            proof {
                assert(dst@ =~= old(dst)@ + handles + Seq::new(
                    (dst@.len() - original_size - handles.len()) as nat,
                    |i: int| 0u8,
                ));
            }
        }
        put_fixed32(dst, MAGIC_LO);
        put_fixed32(dst, MAGIC_HI);
        proof {
            assert(dst@ =~= old(dst)@ + footer_encoding(*self));
        }
    }

    /// Decodes a footer from the front of `input`, a region of at least
    /// `ENCODED_LENGTH` bytes ending the file. The magic constant is
    /// checked first: a mismatch is a corruption and nothing further is
    /// read. On success the leftover bytes past the footer are returned;
    /// on failure the footer is left as it was.
    pub fn decode_from<'a>(&mut self, input: &'a [u8]) -> (r: RubbleResult<&'a [u8]>)
        requires
            input@.len() >= ENCODED_LENGTH,
        ensures
            r is Ok <==> footer_parse(input@) is Some,
            r is Ok ==> {
                let (mh, ih) = footer_parse(input@)->0;
                &&& final(self).metaindex_handle == mh
                &&& final(self).index_handle == ih
                &&& r->Ok_0@ == input@.skip(ENCODED_LENGTH as int)
            },
            r is Err ==> *final(self) == *old(self),
            !footer_magic_matches(input@) <==> (r is Err && r->Err_0.is_corruption()),
    {
        let magic_slice = &input[(ENCODED_LENGTH - 8)..input.len()];
        let magic_lo = decode_fixed32(magic_slice);
        let magic_hi = decode_fixed32(&magic_slice[4..magic_slice.len()]);
        let magic = (magic_lo as u64) + (magic_hi as u64) * 0x100000000;
        proof {
            lemma_footer_magic_value(input@, magic_slice@, magic_lo, magic_hi);
        }
        if magic != TABLE_MAGIC_NUMBER {
            return Err(
                RubbleError::Status(
                    Status::Corruption(String::from_str("not an sstable (bad magic number)")),
                ),
            );
        }
        match decode_two_handles(input) {
            Ok((metaindex, index)) => {
                self.metaindex_handle = metaindex;
                self.index_handle = index;
                // Any leftover data past the fixed footer length is padding
                // or extension fields; hand it back untouched.
                Ok(vstd::slice::slice_subrange(input, ENCODED_LENGTH, input.len()))
            },
            Err(e) => Err(e),
        }
    }
}

/// Reads the two consecutive block handles at the front of a footer
/// region: the metaindex handle, then the index handle.
fn decode_two_handles(input: &[u8]) -> (r: RubbleResult<(BlockHandle, BlockHandle)>)
    ensures
        r is Ok <==> (handle_parse(input@) is Some && handle_parse(
            input@.skip((handle_parse(input@)->0).1 as int),
        ) is Some),
        r is Ok ==> {
            let (mh, n1) = handle_parse(input@)->0;
            let (ih, n2) = handle_parse(input@.skip(n1 as int))->0;
            r->Ok_0 == (mh, ih)
        },
        r is Err ==> r->Err_0 matches RubbleError::Status(Status::IOError(_)),
{
    let mut metaindex = BlockHandle::new();
    let mut index = BlockHandle::new();
    let after_first = match metaindex.decode_from(input) {
        Ok(rest) => rest,
        Err(e) => {
            return Err(e);
        },
    };
    match index.decode_from(after_first) {
        Ok(_) => {},
        Err(e) => {
            return Err(e);
        },
    }
    Ok((metaindex, index))
}

/// The composed 64-bit magic equals the constant exactly when both stored
/// fixed32 words match it, that is, when the footer magic check passes.
#[verifier::rlimit(50)]
proof fn lemma_footer_magic_value(s: Seq<u8>, tail: Seq<u8>, lo: u32, hi: u32)
    requires
        s.len() >= ENCODED_LENGTH,
        tail == s.skip(2 * MAX_ENCODED_LENGTH as int),
        lo == fixed32_value(ENDIANNESS, tail),
        hi == fixed32_value(ENDIANNESS, tail.subrange(4, tail.len() as int)),
    ensures
        ((lo as u64) + (hi as u64) * 0x100000000 == TABLE_MAGIC_NUMBER) <==> footer_magic_matches(
            s,
        ),
{
    assert(s.skip(2 * MAX_ENCODED_LENGTH + 4 as int) =~= tail.subrange(4, tail.len() as int));
    assert((MAGIC_LO as u64) + (MAGIC_HI as u64) * 0x100000000 == TABLE_MAGIC_NUMBER);
    if (lo as u64) + (hi as u64) * 0x100000000 == TABLE_MAGIC_NUMBER {
        assert(lo == MAGIC_LO && hi == MAGIC_HI);
    }
}

/// If the eight magic bytes of footer region `s` differ anywhere from the
/// serialized magic constant, the magic check fails and decoding reports
/// a corruption, never a silent misparse.
pub proof fn lemma_footer_magic_flip(s: Seq<u8>)
    requires
        s.len() >= ENCODED_LENGTH,
        s.subrange(2 * MAX_ENCODED_LENGTH as int, ENCODED_LENGTH as int) != fixed32_bytes(
            ENDIANNESS,
            MAGIC_LO,
        ) + fixed32_bytes(ENDIANNESS, MAGIC_HI),
    ensures
        !footer_magic_matches(s),
        footer_parse(s) is None,
{
    if footer_magic_matches(s) {
        let lo_bytes = s.skip(2 * MAX_ENCODED_LENGTH as int).take(4);
        let hi_bytes = s.skip(2 * MAX_ENCODED_LENGTH + 4 as int).take(4);
        assert(fixed32_value(ENDIANNESS, s.skip(2 * MAX_ENCODED_LENGTH as int)) == fixed32_value(
            ENDIANNESS,
            lo_bytes,
        ));
        assert(fixed32_value(ENDIANNESS, s.skip(2 * MAX_ENCODED_LENGTH + 4 as int))
            == fixed32_value(ENDIANNESS, hi_bytes));
        lemma_fixed32_value_injective(ENDIANNESS, lo_bytes);
        lemma_fixed32_value_injective(ENDIANNESS, hi_bytes);
        assert(s.subrange(2 * MAX_ENCODED_LENGTH as int, ENCODED_LENGTH as int) =~= lo_bytes
            + hi_bytes);
        assert(false);
    }
}

/// A footer's encoding reads back as the same two handles, whatever
/// follows the 48-byte region.
pub proof fn lemma_footer_round_trip(f: Footer, rest: Seq<u8>)
    ensures
        footer_parse(footer_encoding(f) + rest) == Some((f.metaindex_handle, f.index_handle)),
        footer_encoding(f).len() == ENCODED_LENGTH,
{
    let s = footer_encoding(f) + rest;
    lemma_handle_round_trip(f.metaindex_handle, Seq::empty());
    lemma_handle_round_trip(f.index_handle, Seq::empty());
    let e1 = handle_encoding(f.metaindex_handle);
    let e2 = handle_encoding(f.index_handle);
    let pad = Seq::new((2 * MAX_ENCODED_LENGTH - e1.len() - e2.len()) as nat, |i: int| 0u8);
    let magic = fixed32_bytes(ENDIANNESS, MAGIC_LO) + fixed32_bytes(ENDIANNESS, MAGIC_HI);
    assert(s =~= e1 + (e2 + (pad + (magic + rest))));
    lemma_handle_round_trip(f.metaindex_handle, e2 + (pad + (magic + rest)));
    let n1 = e1.len();
    assert(s.skip(n1 as int) =~= e2 + (pad + (magic + rest)));
    lemma_handle_round_trip(f.index_handle, pad + (magic + rest));
    assert(footer_magic_matches(s)) by {
        assert(s.skip(2 * MAX_ENCODED_LENGTH as int).take(4) =~= fixed32_bytes(
            ENDIANNESS,
            MAGIC_LO,
        ));
        assert(s.skip(2 * MAX_ENCODED_LENGTH + 4 as int).take(4) =~= fixed32_bytes(
            ENDIANNESS,
            MAGIC_HI,
        ));
        lemma_fixed32_round_trip(ENDIANNESS, MAGIC_LO);
        lemma_fixed32_round_trip(ENDIANNESS, MAGIC_HI);
        assert(fixed32_value(ENDIANNESS, s.skip(2 * MAX_ENCODED_LENGTH as int)) == fixed32_value(
            ENDIANNESS,
            s.skip(2 * MAX_ENCODED_LENGTH as int).take(4),
        ));
        assert(fixed32_value(ENDIANNESS, s.skip(2 * MAX_ENCODED_LENGTH + 4 as int))
            == fixed32_value(ENDIANNESS, s.skip(2 * MAX_ENCODED_LENGTH + 4 as int).take(4)));
    }
}

/// How a stored block's payload is compressed, recorded in the first
/// trailer byte.
#[derive(Clone, Copy, PartialEq, Eq, Structural, Debug)]
pub enum CompressionType {
    NoCompression,
    SnappyCompression,
}

impl CompressionType {
    /// The byte that stands for this compression type in a block trailer.
    pub fn type_byte(&self) -> (r: u8)
        ensures
            r == self.type_byte_spec(),
    {
        match self {
            CompressionType::NoCompression => 0,
            CompressionType::SnappyCompression => 1,
        }
    }

    /// What `type_byte` returns for each variant.
    pub open spec fn type_byte_spec(&self) -> u8 {
        match self {
            CompressionType::NoCompression => 0,
            CompressionType::SnappyCompression => 1,
        }
    }
}

/// Bytes resolved from a block handle, after any decompression, and
/// whether they may be retained in a shared cache.
#[derive(Debug)]
pub struct BlockContents {
    /// Actual contents of data.
    pub data: Vec<u8>,
    /// True iff data can be cached.
    pub cachable: bool,
}

/// A stored block's payload as its trailer declares it: either ready to
/// use, or compressed bytes still to be run through the codec.
#[derive(Debug)]
pub enum RawBlockPayload {
    Uncompressed(Vec<u8>),
    Snappy(Vec<u8>),
}

/// Splits a stored block of `n` payload bytes plus its 5-byte trailer:
/// branches on the compression-type byte and hands back the payload.
/// Any unknown type byte is a corruption.
pub fn decode_block_trailer(buff: &[u8], n: usize) -> (r: RubbleResult<RawBlockPayload>)
    requires
        n + BLOCK_TRAILER_SIZE == buff@.len(),
    ensures
        buff@[n as int] == 0 ==> r is Ok && (r->Ok_0 matches RawBlockPayload::Uncompressed(d)
            && d@ == buff@.take(n as int)),
        buff@[n as int] == 1 ==> r is Ok && (r->Ok_0 matches RawBlockPayload::Snappy(d) && d@
            == buff@.take(n as int)),
        buff@[n as int] > 1 ==> r is Err && r->Err_0.is_corruption(),
{
    let type_byte = buff[n];
    if type_byte == CompressionType::NoCompression.type_byte() {
        let data = vstd::slice::slice_to_vec(vstd::slice::slice_subrange(buff, 0, n));
        proof {
            assert(buff@.subrange(0, n as int) =~= buff@.take(n as int));
        }
        Ok(RawBlockPayload::Uncompressed(data))
    } else if type_byte == CompressionType::SnappyCompression.type_byte() {
        let data = vstd::slice::slice_to_vec(vstd::slice::slice_subrange(buff, 0, n));
        proof {
            assert(buff@.subrange(0, n as int) =~= buff@.take(n as int));
        }
        Ok(RawBlockPayload::Snappy(data))
    } else {
        Err(RubbleError::Status(Status::Corruption(String::from_str("bad block type"))))
    }
}

/// Turns an uncompressed payload into cacheable block contents.
pub fn block_contents_raw(data: Vec<u8>) -> (r: BlockContents)
    ensures
        r.data@ == data@,
        r.cachable,
{
    BlockContents { data, cachable: true }
}

/// Finishes resolving a compressed payload from whatever the
/// decompression codec returned: its failure is a corruption of the
/// stored block.
pub fn block_contents_from_decompressed(decompressed: Option<Vec<u8>>) -> (r: RubbleResult<
    BlockContents,
>)
    ensures
        decompressed is Some ==> r is Ok && r->Ok_0.data@ == decompressed->0@
            && r->Ok_0.cachable,
        decompressed is None ==> r is Err && r->Err_0.is_corruption(),
{
    match decompressed {
        Some(data) => Ok(BlockContents { data, cachable: true }),
        None => Err(
            RubbleError::Status(
                Status::Corruption(String::from_str("corrupted compressed block contents")),
            ),
        ),
    }
}

} // verus!

//! Blocks as the client sees them, and their fixed-length plaintext form.
//!
//! A plaintext is a 16-byte header followed by the block's data:
//!
//! | bytes    | content                                 |
//! |----------|-----------------------------------------|
//! | `0..8`   | block id, little-endian                 |
//! | `8..12`  | assigned leaf, little-endian            |
//! | `12`     | flags: bit 0 is set on a dummy block    |
//! | `13..16` | reserved, zero                          |
//! | `16..`   | data                                    |

use crate::bytes::{
    le_bytes, le_value, le_value_of_word, lemma_le_bytes_len, lemma_le_round_trip, lemma_le_value_bound,
    lemma_pow256_values, push_le, read_le,
};
use vstd::prelude::*;

verus! {

/// Name of a block.
pub type BlockId = u64;

/// Number of a leaf of the tree, counted from the left.
pub type Leaf = u32;

/// Length of the header in front of a block's data.
pub const HEADER_LEN: usize = 16;

/// A block in the clear. The server never sees one.
#[derive(Debug)]
pub struct PlainBlock {
    pub id: BlockId,
    /// The leaf that the block is assigned to.
    pub leaf: Leaf,
    /// Whether the block only fills a slot.
    pub is_dummy: bool,
    pub data: Vec<u8>,
}

/// A block as a mathematical value.
#[verifier::ext_equal]
pub struct BlockView {
    pub id: BlockId,
    pub leaf: Leaf,
    pub is_dummy: bool,
    pub data: Seq<u8>,
}

impl View for PlainBlock {
    type V = BlockView;

    open spec fn view(&self) -> BlockView {
        BlockView { id: self.id, leaf: self.leaf, is_dummy: self.is_dummy, data: self.data@ }
    }
}

impl Clone for PlainBlock {
    fn clone(&self) -> (res: Self)
        ensures
            res@ == self@,
            res.id == self.id,
            res.leaf == self.leaf,
            res.is_dummy == self.is_dummy,
            res.data@ == self.data@,
    {
        let data = self.data.clone();
        assert(data@ =~= self.data@);
        PlainBlock { id: self.id, leaf: self.leaf, is_dummy: self.is_dummy, data }
    }
}

/// Blocks as mathematical values.
pub open spec fn block_views(blocks: Seq<PlainBlock>) -> Seq<BlockView> {
    blocks.map_values(|b: PlainBlock| b@)
}

/// `len` zero bytes.
pub open spec fn zeros(len: nat) -> Seq<u8> {
    Seq::new(len, |i: int| 0u8)
}

/// The block that fills unused slots.
pub open spec fn dummy_block(block_size: nat) -> BlockView {
    BlockView { id: 0, leaf: 0, is_dummy: true, data: zeros(block_size) }
}

/// A block that carries data.
pub open spec fn real_block(id: BlockId, leaf: Leaf, data: Seq<u8>) -> BlockView {
    BlockView { id, leaf, is_dummy: false, data }
}

impl PlainBlock {
    /// The block that fills unused slots.
    pub fn dummy(block_size: usize) -> (b: Self)
        requires
            block_size <= isize::MAX,
        ensures
            b@ == dummy_block(block_size as nat),
            b.id == 0,
            b.leaf == 0,
            b.is_dummy,
            b.data@.len() == block_size,
            forall|i: int| 0 <= i < block_size ==> #[trigger] b.data@[i] == 0,
    {
        let data: Vec<u8> = vec![0u8; block_size];
        assert(data@ =~= zeros(block_size as nat));
        Self { id: 0, leaf: 0, is_dummy: true, data }
    }

    /// A block that carries data.
    pub fn new_real(id: BlockId, leaf: Leaf, data: Vec<u8>) -> (b: Self)
        ensures
            b@ == real_block(id, leaf, data@),
            b.id == id,
            b.leaf == leaf,
            !b.is_dummy,
            b.data == data,
    {
        Self { id, leaf, is_dummy: false, data }
    }
}

/// The four flag and reserved bytes of the header.
pub open spec fn flag_bytes(is_dummy: bool) -> Seq<u8> {
    seq![if is_dummy { 1u8 } else { 0u8 }, 0u8, 0u8, 0u8]
}

/// The plaintext of a block.
pub open spec fn encoded(b: BlockView) -> Seq<u8> {
    le_bytes(b.id as nat, 8) + le_bytes(b.leaf as nat, 4) + flag_bytes(b.is_dummy) + b.data
}

/// The block that a plaintext stands for.
pub open spec fn decoded(buf: Seq<u8>) -> BlockView
    recommends
        buf.len() >= HEADER_LEN,
{
    BlockView {
        id: le_value(buf.subrange(0, 8)) as u64,
        leaf: le_value(buf.subrange(8, 12)) as u32,
        is_dummy: buf[12] % 2 == 1,
        data: buf.subrange(16, buf.len() as int),
    }
}

/// The plaintext of `b`.
pub fn encode_block(b: &PlainBlock, block_size: usize) -> (out: Vec<u8>)
    requires
        b.data@.len() == block_size,
        HEADER_LEN + block_size <= isize::MAX,
    ensures
        out@ == encoded(b@),
        out@.len() == HEADER_LEN + block_size,
        out@.len() == 16 + block_size,
        b.id == out@[0] + 0x100 * out@[1] + 0x1_0000 * out@[2] + 0x100_0000 * out@[3]
            + 0x1_0000_0000 * out@[4] + 0x100_0000_0000 * out@[5] + 0x1_0000_0000_0000 * out@[6]
            + 0x100_0000_0000_0000 * out@[7],
        b.leaf == out@[8] + 0x100 * out@[9] + 0x1_0000 * out@[10] + 0x100_0000 * out@[11],
        out@[12] == (if b.is_dummy { 1u8 } else { 0u8 }),
        out@[13] == 0,
        out@[14] == 0,
        out@[15] == 0,
        out@.subrange(16, out@.len() as int) == b.data@,
{
    let mut out: Vec<u8> = Vec::with_capacity(HEADER_LEN + block_size);
    push_le(&mut out, b.id, 8);
    push_le(&mut out, b.leaf as u64, 4);
    out.push(if b.is_dummy { 1u8 } else { 0u8 });
    out.push(0u8);
    out.push(0u8);
    out.push(0u8);
    proof {
        lemma_le_bytes_len(b.id as nat, 8);
        lemma_le_bytes_len(b.leaf as nat, 4);
        assert(out@ =~= le_bytes(b.id as nat, 8) + le_bytes(b.leaf as nat, 4) + flag_bytes(
            b.is_dummy,
        ));
    }
    out.extend_from_slice(b.data.as_slice());
    assert(out@ =~= encoded(b@));
    proof {
        plaintext_layout(b@);
    }
    out
}

/// The block that `buf` stands for.
pub fn decode_block(buf: &[u8], block_size: usize) -> (b: PlainBlock)
    requires
        buf@.len() == HEADER_LEN + block_size,
    ensures
        b@ == decoded(buf@),
        b.data@.len() == block_size,
        b.id == buf@[0] + 0x100 * buf@[1] + 0x1_0000 * buf@[2] + 0x100_0000 * buf@[3]
            + 0x1_0000_0000 * buf@[4] + 0x100_0000_0000 * buf@[5] + 0x1_0000_0000_0000 * buf@[6]
            + 0x100_0000_0000_0000 * buf@[7],
        b.leaf == buf@[8] + 0x100 * buf@[9] + 0x1_0000 * buf@[10] + 0x100_0000 * buf@[11],
        b.is_dummy == (buf@[12] % 2 == 1),
        b.data@ == buf@.subrange(16, buf@.len() as int),
{
    let id = read_le(buf, 0, 8);
    let leaf_value: u64 = read_le(buf, 8, 4);
    proof {
        lemma_le_value_bound(buf@.subrange(8, 12));
        lemma_pow256_values();
    }
    let leaf: u32 = leaf_value as u32;
    let flags: u8 = buf[12];
    assert((flags & 1u8 == 1u8) == (flags % 2 == 1)) by (bit_vector);
    let is_dummy = (flags & 1u8) == 1u8;
    let mut data: Vec<u8> = Vec::new();
    data.extend_from_slice(&buf[16..buf.len()]);
    assert(data@ =~= decoded(buf@).data);
    proof {
        layout_is_read_back(buf@);
    }
    PlainBlock { id, leaf, is_dummy, data }
}

/// The layout of a plaintext: the bytes of the id and of the leaf, least significant first, a flag
/// and three zeros, and the data.
pub proof fn plaintext_layout(b: BlockView)
    ensures
        encoded(b).len() == 16 + b.data.len(),
        b.id == encoded(b)[0] + 0x100 * encoded(b)[1] + 0x1_0000 * encoded(b)[2] + 0x100_0000
            * encoded(b)[3] + 0x1_0000_0000 * encoded(b)[4] + 0x100_0000_0000 * encoded(b)[5]
            + 0x1_0000_0000_0000 * encoded(b)[6] + 0x100_0000_0000_0000 * encoded(b)[7],
        b.leaf == encoded(b)[8] + 0x100 * encoded(b)[9] + 0x1_0000 * encoded(b)[10] + 0x100_0000
            * encoded(b)[11],
        encoded(b)[12] == (if b.is_dummy { 1u8 } else { 0u8 }),
        encoded(b)[13] == 0,
        encoded(b)[14] == 0,
        encoded(b)[15] == 0,
        encoded(b).subrange(16, encoded(b).len() as int) == b.data,
{
    let id = le_bytes(b.id as nat, 8);
    let leaf = le_bytes(b.leaf as nat, 4);
    lemma_le_bytes_len(b.id as nat, 8);
    lemma_le_bytes_len(b.leaf as nat, 4);
    lemma_pow256_values();
    lemma_le_round_trip(b.id as nat, 8);
    lemma_le_round_trip(b.leaf as nat, 4);
    le_value_of_word(id);
    le_value_of_word(leaf);
    assert(encoded(b).subrange(16, encoded(b).len() as int) =~= b.data);
}

/// The block of a plaintext has the id, the leaf, the flag and the data that lie there.
pub proof fn layout_is_read_back(buf: Seq<u8>)
    requires
        buf.len() >= 16,
    ensures
        decoded(buf).id == buf[0] + 0x100 * buf[1] + 0x1_0000 * buf[2] + 0x100_0000 * buf[3]
            + 0x1_0000_0000 * buf[4] + 0x100_0000_0000 * buf[5] + 0x1_0000_0000_0000 * buf[6]
            + 0x100_0000_0000_0000 * buf[7],
        decoded(buf).leaf == buf[8] + 0x100 * buf[9] + 0x1_0000 * buf[10] + 0x100_0000 * buf[11],
        decoded(buf).is_dummy == (buf[12] % 2 == 1),
        decoded(buf).data == buf.subrange(16, buf.len() as int),
{
    le_value_of_word(buf.subrange(0, 8));
    le_value_of_word(buf.subrange(8, 12));
}

/// Decoding undoes encoding: every block comes back from its plaintext.
pub proof fn decode_undoes_encode(b: BlockView)
    ensures
        encoded(b).len() == HEADER_LEN + b.data.len(),
        decoded(encoded(b)) == b,
{
    let id = le_bytes(b.id as nat, 8);
    let leaf = le_bytes(b.leaf as nat, 4);
    lemma_le_bytes_len(b.id as nat, 8);
    lemma_le_bytes_len(b.leaf as nat, 4);
    lemma_pow256_values();
    lemma_le_round_trip(b.id as nat, 8);
    lemma_le_round_trip(b.leaf as nat, 4);
    assert(encoded(b).subrange(0, 8) =~= id);
    assert(encoded(b).subrange(8, 12) =~= leaf);
    assert(encoded(b).subrange(16, encoded(b).len() as int) =~= b.data);
}

} // verus!

//! Slots: blocks encrypted for one place in the tree.
//!
//! A slot is a nonce followed by the ciphertext of the block's plaintext, so all slots of a store
//! are equally long. The associated data binds a slot to its place.

use crate::aead::{open, opened, seal, sealed, MAX_MESSAGE_LEN, NONCE_LEN, TAG_LEN};
use crate::block::{
    decode_block, decode_undoes_encode, decoded, dummy_block, encode_block, encoded, plaintext_layout,
    BlockView, PlainBlock, HEADER_LEN,
};
use crate::bytes::{
    first_bytes, le_bytes, le_value, le_value_of_word, lemma_le_bytes_len, lemma_le_round_trip,
    lemma_pow256_values, push_le,
};
use crate::generator::{fill_bytes, filled, generator_state, seed_generator, seeded_state};
use rand::rngs::StdRng;
use vstd::prelude::*;

verus! {

/// The key, the generator of nonces and leaves, and the block size of one store.
pub struct CryptoCtx {
    pub key: [u8; 32],
    pub rng: StdRng,
    pub block_size: usize,
}

/// Why a slot was refused.
#[derive(Clone, Copy, Debug, PartialEq, Eq, Structural)]
pub enum SlotError {
    /// Too short to hold a nonce and a tag.
    TooShort,
    /// Longer than anything the cipher encrypts.
    TooLong,
    /// Altered, or not encrypted for this place with this key.
    NotAuthentic,
    /// Authentic, but not of this store's block size.
    WrongLength,
}

/// Whether blocks of this size can be encrypted and stored in a vector.
pub open spec fn encryptable(block_size: nat) -> bool {
    &&& HEADER_LEN + block_size <= MAX_MESSAGE_LEN
    &&& slot_length(block_size) <= isize::MAX
}

/// The length of a slot.
pub open spec fn slot_length(block_size: nat) -> nat {
    NONCE_LEN as nat + HEADER_LEN as nat + block_size + TAG_LEN as nat
}

/// The associated data of slot `slot` of node `node`.
pub open spec fn place(node: int, slot: int) -> Seq<u8> {
    le_bytes(node as nat, 8) + le_bytes(slot as nat, 8)
}

/// The generator's state after `k` nonces were drawn.
pub open spec fn state_after(state: Seq<u8>, k: int) -> Seq<u8>
    decreases k,
{
    if k <= 0 {
        state
    } else {
        filled(state_after(state, k - 1), NONCE_LEN as nat).1
    }
}

/// The nonce that is drawn after `k` others: all bytes of one fill, which gives as many as it is
/// asked for.
pub open spec fn nonce_at(state: Seq<u8>, k: int) -> Seq<u8> {
    first_bytes(filled(state_after(state, k), NONCE_LEN as nat).0, NONCE_LEN as nat)
}

/// The ciphertext of `b` at a place, encrypted with `nonce`: all that the cipher gives, which is one
/// tag longer than the plaintext.
pub open spec fn slot_ciphertext(
    key: Seq<u8>,
    nonce: Seq<u8>,
    node: int,
    slot: int,
    b: BlockView,
) -> Seq<u8> {
    first_bytes(sealed(key, nonce, place(node, slot), encoded(b)), encoded(b).len() + TAG_LEN as nat)
}

/// The slot that holds `b` at a place, encrypted with `nonce`.
pub open spec fn sealed_slot(
    key: Seq<u8>,
    nonce: Seq<u8>,
    node: int,
    slot: int,
    b: BlockView,
) -> Seq<u8> {
    nonce + slot_ciphertext(key, nonce, node, slot, b)
}

/// The plaintext of a slot that lies at a place, or `None` where it is not authentic there.
pub open spec fn slot_plaintext(key: Seq<u8>, node: int, slot: int, bytes: Seq<u8>) -> Option<
    Seq<u8>,
> {
    opened(
        key,
        bytes.subrange(0, NONCE_LEN as int),
        place(node, slot),
        bytes.subrange(NONCE_LEN as int, bytes.len() as int),
    )
}

/// Whether the bytes are a slot that is authentic at a place and holds a block of this size.
pub open spec fn slot_valid(
    key: Seq<u8>,
    block_size: nat,
    node: int,
    slot: int,
    bytes: Seq<u8>,
) -> bool {
    &&& bytes.len() == slot_length(block_size)
    &&& slot_plaintext(key, node, slot, bytes) is Some
    &&& slot_plaintext(key, node, slot, bytes)->0.len() == HEADER_LEN + block_size
}

/// The block that a valid slot holds.
pub open spec fn slot_block(key: Seq<u8>, node: int, slot: int, bytes: Seq<u8>) -> BlockView {
    decoded(slot_plaintext(key, node, slot, bytes)->0)
}

/// Which block sizes can be encrypted: the cipher takes messages of up to `2^38 - 128` bytes, and a
/// vector must hold the slot.
pub proof fn encryptable_sizes(block_size: nat)
    ensures
        encryptable(block_size) <==> 16 + block_size <= 274_877_906_816 && 24 + 16 + block_size + 16
            <= isize::MAX,
{
}

/// The associated data of a place: the bytes of the node's and of the slot's number, least
/// significant first.
pub proof fn place_layout(node: usize, slot: usize)
    ensures
        place(node as int, slot as int).len() == 16,
        ({
            let aad = place(node as int, slot as int);
            &&& node == aad[0] + 0x100 * aad[1] + 0x1_0000 * aad[2] + 0x100_0000 * aad[3]
                + 0x1_0000_0000 * aad[4] + 0x100_0000_0000 * aad[5] + 0x1_0000_0000_0000 * aad[6]
                + 0x100_0000_0000_0000 * aad[7]
            &&& slot == aad[8] + 0x100 * aad[9] + 0x1_0000 * aad[10] + 0x100_0000 * aad[11]
                + 0x1_0000_0000 * aad[12] + 0x100_0000_0000 * aad[13] + 0x1_0000_0000_0000 * aad[14]
                + 0x100_0000_0000_0000 * aad[15]
        }),
{
    lemma_pow256_values();
    lemma_le_bytes_len(node as nat, 8);
    lemma_le_bytes_len(slot as nat, 8);
    lemma_le_round_trip(node as nat, 8);
    lemma_le_round_trip(slot as nat, 8);
    le_value_of_word(le_bytes(node as nat, 8));
    le_value_of_word(le_bytes(slot as nat, 8));
}

/// The bytes of a slot: the nonce, and then what the cipher gives for the plaintext of the block
/// under the key, the nonce and the node's and the slot's number.
pub proof fn slot_layout(key: Seq<u8>, nonce: Seq<u8>, node: int, slot: int, b: BlockView)
    requires
        nonce.len() == 24,
    ensures
        sealed_slot(key, nonce, node, slot, b).len() == 24 + 16 + b.data.len() + 16,
        sealed_slot(key, nonce, node, slot, b).subrange(0, 24) == nonce,
        forall|i: int|
            24 <= i < 24 + 16 + b.data.len() + 16 ==> #[trigger] sealed_slot(
                key,
                nonce,
                node,
                slot,
                b,
            )[i] == sealed(
                key,
                nonce,
                le_bytes(node as nat, 8) + le_bytes(slot as nat, 8),
                encoded(b),
            )[i - 24],
{
    plaintext_layout(b);
    assert(sealed_slot(key, nonce, node, slot, b).subrange(0, 24) =~= nonce);
}

/// The plaintext of a dummy is all zeros but for the flag.
pub proof fn dummy_layout(block_size: nat)
    ensures
        encoded(dummy_block(block_size)) == Seq::new(
            16 + block_size,
            |i: int|
                if i == 12 {
                    1u8
                } else {
                    0u8
                },
        ),
{
    let b = dummy_block(block_size);
    plaintext_layout(b);
    assert forall|i: int| 0 <= i < 16 + block_size implies #[trigger] encoded(b)[i] == (if i == 12 {
        1u8
    } else {
        0u8
    }) by {
        if i >= 16 {
            assert(encoded(b).subrange(16, encoded(b).len() as int)[i - 16] == b.data[i - 16]);
        }
    }
}

/// Nonces are drawn one after the other: the first from the generator as it is, and each further one
/// from the state that the draw before left.
pub proof fn nonces_are_successive_draws(state: Seq<u8>, k: int)
    requires
        k >= 0,
    ensures
        state_after(state, 0) == state,
        state_after(state, k + 1) == filled(state_after(state, k), 24).1,
        nonce_at(state, k).len() == 24,
        forall|i: int|
            0 <= i < 24 ==> #[trigger] nonce_at(state, k)[i] == filled(
                state_after(state, k),
                24,
            ).0[i],
{
}

/// When a slot is valid, and which block it holds: the cipher opens what follows the first 24 bytes,
/// with these as the nonce and the place as associated data, and the plaintext is the block's.
pub proof fn valid_slot_opens(key: Seq<u8>, block_size: nat, node: int, slot: int, bytes: Seq<u8>)
    ensures
        slot_valid(key, block_size, node, slot, bytes) <==> bytes.len() == 24 + 16 + block_size + 16
            && opened(
            key,
            bytes.subrange(0, 24),
            le_bytes(node as nat, 8) + le_bytes(slot as nat, 8),
            bytes.subrange(24, bytes.len() as int),
        ) is Some && opened(
            key,
            bytes.subrange(0, 24),
            le_bytes(node as nat, 8) + le_bytes(slot as nat, 8),
            bytes.subrange(24, bytes.len() as int),
        )->0.len() == 16 + block_size,
        slot_block(key, node, slot, bytes) == decoded(
            opened(
                key,
                bytes.subrange(0, 24),
                le_bytes(node as nat, 8) + le_bytes(slot as nat, 8),
                bytes.subrange(24, bytes.len() as int),
            )->0,
        ),
{
}

/// Different places have different associated data, so a slot that is moved to another place is
/// checked against other data than it was encrypted with.
pub proof fn places_differ(node1: usize, slot1: usize, node2: usize, slot2: usize)
    requires
        place(node1 as int, slot1 as int) == place(node2 as int, slot2 as int),
    ensures
        node1 == node2,
        slot1 == slot2,
{
    let a = place(node1 as int, slot1 as int);
    lemma_pow256_values();
    lemma_le_bytes_len(node1 as nat, 8);
    lemma_le_bytes_len(node2 as nat, 8);
    lemma_le_bytes_len(slot1 as nat, 8);
    lemma_le_bytes_len(slot2 as nat, 8);
    assert(a.subrange(0, 8) =~= le_bytes(node1 as nat, 8));
    assert(a.subrange(0, 8) =~= le_bytes(node2 as nat, 8));
    assert(a.subrange(8, 16) =~= le_bytes(slot1 as nat, 8));
    assert(a.subrange(8, 16) =~= le_bytes(slot2 as nat, 8));
    lemma_le_round_trip(node1 as nat, 8);
    lemma_le_round_trip(node2 as nat, 8);
    lemma_le_round_trip(slot1 as nat, 8);
    lemma_le_round_trip(slot2 as nat, 8);
}

impl CryptoCtx {
    pub fn new(key_bytes_32: [u8; 32], seed: u64, block_size: usize) -> (ctx: Self)
        ensures
            ctx.key == key_bytes_32,
            generator_state(ctx.rng) == seeded_state(seed),
            ctx.block_size == block_size,
    {
        Self { key: key_bytes_32, rng: seed_generator(seed), block_size }
    }

    /// The length of a plaintext.
    pub fn plaintext_len(&self) -> (n: usize)
        requires
            HEADER_LEN + self.block_size <= usize::MAX,
        ensures
            n == HEADER_LEN + self.block_size,
            n == 16 + self.block_size,
    {
        HEADER_LEN + self.block_size
    }

    /// The length of a slot.
    pub fn slot_len(&self) -> (n: usize)
        requires
            slot_length(self.block_size as nat) <= usize::MAX,
        ensures
            n == slot_length(self.block_size as nat),
            n == 24 + 16 + self.block_size + 16,
    {
        NONCE_LEN + self.plaintext_len() + TAG_LEN
    }

    /// The associated data of a place.
    pub fn aad_for_slot(node_index: usize, slot_index: usize) -> (aad: [u8; 16])
        ensures
            aad@ == place(node_index as int, slot_index as int),
            node_index == aad@[0] + 0x100 * aad@[1] + 0x1_0000 * aad@[2] + 0x100_0000 * aad@[3]
                + 0x1_0000_0000 * aad@[4] + 0x100_0000_0000 * aad@[5] + 0x1_0000_0000_0000 * aad@[6]
                + 0x100_0000_0000_0000 * aad@[7],
            slot_index == aad@[8] + 0x100 * aad@[9] + 0x1_0000 * aad@[10] + 0x100_0000 * aad@[11]
                + 0x1_0000_0000 * aad@[12] + 0x100_0000_0000 * aad@[13] + 0x1_0000_0000_0000
                * aad@[14] + 0x100_0000_0000_0000 * aad@[15],
    {
        let mut numbers: Vec<u8> = Vec::with_capacity(16);
        push_le(&mut numbers, node_index as u64, 8);
        push_le(&mut numbers, slot_index as u64, 8);
        proof {
            lemma_le_bytes_len(node_index as nat, 8);
            lemma_le_bytes_len(slot_index as nat, 8);
            assert(numbers@ =~= place(node_index as int, slot_index as int));
        }
        let mut aad = [0u8; 16];
        let mut i: usize = 0;
        while i < 16
            invariant
                i <= 16,
                numbers@.len() == 16,
                forall|j: int| 0 <= j < i ==> #[trigger] aad@[j] == numbers@[j],
            decreases 16 - i,
        {
            aad[i] = numbers[i];
            i = i + 1;
        }
        assert(aad@ =~= numbers@);
        proof {
            place_layout(node_index, slot_index);
        }
        aad
    }

    /// Encrypts a block for a place, with a nonce drawn for it.
    pub fn encrypt_block_to_slot(
        &mut self,
        b: &PlainBlock,
        node_index: usize,
        slot_index: usize,
    ) -> (slot: Vec<u8>)
        requires
            b.data@.len() == old(self).block_size,
            encryptable(old(self).block_size as nat),
        ensures
            slot@ == sealed_slot(
                old(self).key@,
                nonce_at(generator_state(old(self).rng), 0),
                node_index as int,
                slot_index as int,
                b@,
            ),
            slot@.len() == slot_length(old(self).block_size as nat),
            slot@.subrange(0, NONCE_LEN as int) == nonce_at(generator_state(old(self).rng), 0),
            slot@.len() == 24 + 16 + old(self).block_size + 16,
            slot@.subrange(0, 24) == filled(generator_state(old(self).rng), 24).0,
            slot@.subrange(24, slot@.len() as int) == sealed(
                old(self).key@,
                filled(generator_state(old(self).rng), 24).0,
                le_bytes(node_index as nat, 8) + le_bytes(slot_index as nat, 8),
                encoded(b@),
            ),
            opened(
                old(self).key@,
                slot@.subrange(0, 24),
                le_bytes(node_index as nat, 8) + le_bytes(slot_index as nat, 8),
                slot@.subrange(24, slot@.len() as int),
            ) == Some(encoded(b@)),
            generator_state(final(self).rng) == filled(generator_state(old(self).rng), 24).1,
            slot_valid(
                old(self).key@,
                old(self).block_size as nat,
                node_index as int,
                slot_index as int,
                slot@,
            ),
            slot_block(old(self).key@, node_index as int, slot_index as int, slot@) == b@,
            generator_state(final(self).rng) == state_after(generator_state(old(self).rng), 1),
            final(self).key == old(self).key,
            final(self).block_size == old(self).block_size,
    {
        let pt = encode_block(b, self.block_size);

        let mut nonce_bytes = [0u8; 24];
        fill_bytes(&mut self.rng, &mut nonce_bytes);
        let aad = Self::aad_for_slot(node_index, slot_index);
        let ct = seal(&self.key, &nonce_bytes, &aad, pt.as_slice()).unwrap();

        let mut slot: Vec<u8> = Vec::with_capacity(NONCE_LEN + ct.len());
        slot.extend_from_slice(&nonce_bytes);
        slot.extend_from_slice(ct.as_slice());
        proof {
            reveal_with_fuel(state_after, 2);
            decode_undoes_encode(b@);
            assert(nonce_bytes@ =~= nonce_at(generator_state(old(self).rng), 0));
            assert(ct@ =~= slot_ciphertext(
                self.key@,
                nonce_bytes@,
                node_index as int,
                slot_index as int,
                b@,
            ));
            assert(slot@ =~= nonce_bytes@ + ct@);
            assert(slot@.subrange(0, NONCE_LEN as int) =~= nonce_bytes@);
            assert(slot@.subrange(NONCE_LEN as int, slot@.len() as int) =~= ct@);
        }
        slot
    }

    /// Decrypts a slot that lies at a place.
    pub fn decrypt_slot_to_block(
        &self,
        slot: &[u8],
        node_index: usize,
        slot_index: usize,
    ) -> (b: PlainBlock)
        requires
            slot@.len() <= NONCE_LEN + MAX_MESSAGE_LEN + TAG_LEN,
            slot_valid(
                self.key@,
                self.block_size as nat,
                node_index as int,
                slot_index as int,
                slot@,
            ),
        ensures
            b@ == slot_block(self.key@, node_index as int, slot_index as int, slot@),
            b.data@.len() == self.block_size,
            ({
                let pt = opened(
                    self.key@,
                    slot@.subrange(0, 24),
                    le_bytes(node_index as nat, 8) + le_bytes(slot_index as nat, 8),
                    slot@.subrange(24, slot@.len() as int),
                );
                &&& pt is Some
                &&& pt->0.len() == 16 + self.block_size
                &&& b.id == le_value(pt->0.subrange(0, 8))
                &&& b.leaf == le_value(pt->0.subrange(8, 12))
                &&& b.is_dummy == (pt->0[12] % 2 == 1)
                &&& b.data@ == pt->0.subrange(16, pt->0.len() as int)
            }),
    {
        let (nonce_part, ct_part) = slot.split_at(NONCE_LEN);
        let aad = Self::aad_for_slot(node_index, slot_index);
        let pt = open(&self.key, nonce_part, &aad, ct_part).unwrap();
        proof {
            le_value_of_word(pt@.subrange(0, 8));
            le_value_of_word(pt@.subrange(8, 12));
        }
        decode_block(pt.as_slice(), self.block_size)
    }

    /// Decrypts bytes that were found at a place, or says why they are no slot of that place.
    pub fn try_decrypt_slot(
        &self,
        slot: &[u8],
        node_index: usize,
        slot_index: usize,
    ) -> (r: Result<PlainBlock, SlotError>)
        ensures
            r is Ok <==> slot@.len() <= NONCE_LEN + MAX_MESSAGE_LEN + TAG_LEN && slot_valid(
                self.key@,
                self.block_size as nat,
                node_index as int,
                slot_index as int,
                slot@,
            ),
            r matches Ok(b) ==> ({
                let pt = opened(
                    self.key@,
                    slot@.subrange(0, 24),
                    le_bytes(node_index as nat, 8) + le_bytes(slot_index as nat, 8),
                    slot@.subrange(24, slot@.len() as int),
                );
                &&& pt is Some
                &&& slot@.len() == 24 + 16 + self.block_size + 16
                &&& pt->0.len() == 16 + self.block_size
                &&& b.id == le_value(pt->0.subrange(0, 8))
                &&& b.leaf == le_value(pt->0.subrange(8, 12))
                &&& b.is_dummy == (pt->0[12] % 2 == 1)
                &&& b.data@ == pt->0.subrange(16, pt->0.len() as int)
            }),
            40 <= slot@.len() <= 274_877_906_856 ==> (r matches Err(SlotError::NotAuthentic)
                <==> opened(
                self.key@,
                slot@.subrange(0, 24),
                le_bytes(node_index as nat, 8) + le_bytes(slot_index as nat, 8),
                slot@.subrange(24, slot@.len() as int),
            ) is None),
            r matches Err(SlotError::TooShort) <==> slot@.len() < 40,
            r matches Err(SlotError::TooLong) <==> slot@.len() > 274_877_906_856,
            r matches Err(SlotError::TooShort) <==> slot@.len() < NONCE_LEN + TAG_LEN,
            r matches Err(SlotError::TooLong) <==> slot@.len() > NONCE_LEN + MAX_MESSAGE_LEN
                + TAG_LEN,
            r matches Err(SlotError::NotAuthentic) <==> NONCE_LEN + TAG_LEN <= slot@.len()
                <= NONCE_LEN + MAX_MESSAGE_LEN + TAG_LEN && slot_plaintext(
                self.key@,
                node_index as int,
                slot_index as int,
                slot@,
            ) is None,
            r matches Err(SlotError::WrongLength) <==> NONCE_LEN + TAG_LEN <= slot@.len()
                <= NONCE_LEN + MAX_MESSAGE_LEN + TAG_LEN && slot_plaintext(
                self.key@,
                node_index as int,
                slot_index as int,
                slot@,
            ) is Some && slot@.len() != slot_length(self.block_size as nat),
            r matches Ok(b) ==> b@ == slot_block(
                self.key@,
                node_index as int,
                slot_index as int,
                slot@,
            ) && b.data@.len() == self.block_size,
    {
        if slot.len() < NONCE_LEN + TAG_LEN {
            return Err(SlotError::TooShort);
        }
        let (nonce_part, ct_part) = slot.split_at(NONCE_LEN);
        if (ct_part.len() - TAG_LEN) as u64 > MAX_MESSAGE_LEN {
            return Err(SlotError::TooLong);
        }
        let aad = Self::aad_for_slot(node_index, slot_index);
        match open(&self.key, nonce_part, &aad, ct_part) {
            Err(_) => Err(SlotError::NotAuthentic),
            Ok(pt) => {
                if pt.len() < HEADER_LEN || pt.len() - HEADER_LEN != self.block_size {
                    Err(SlotError::WrongLength)
                } else {
                    Ok(self.decrypt_slot_to_block(slot, node_index, slot_index))
                }
            },
        }
    }
}

} // verus!

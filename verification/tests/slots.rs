use chacha20poly1305::aead::{Aead, KeyInit, Payload};
use chacha20poly1305::{Key, XChaCha20Poly1305, XNonce};
use path_oram::block::{encode_block, PlainBlock};
use path_oram::crypto::{CryptoCtx, SlotError};
use rand::rngs::StdRng;
use rand::{Rng, SeedableRng};

const KEY: [u8; 32] = [7u8; 32];

fn same_block(a: &PlainBlock, b: &PlainBlock) -> bool {
    a.id == b.id && a.leaf == b.leaf && a.is_dummy == b.is_dummy && a.data == b.data
}

#[test]
fn lengths_follow_the_block_size() {
    let ctx = CryptoCtx::new(KEY, 1, 32);
    assert_eq!(ctx.plaintext_len(), 48);
    assert_eq!(ctx.slot_len(), 88);
    assert_eq!(CryptoCtx::new(KEY, 1, 0).slot_len(), 56);
}

#[test]
fn associated_data_name_the_place() {
    assert_eq!(
        CryptoCtx::aad_for_slot(0x0102, 3),
        [2, 1, 0, 0, 0, 0, 0, 0, 3, 0, 0, 0, 0, 0, 0, 0]
    );
    assert_ne!(CryptoCtx::aad_for_slot(1, 2), CryptoCtx::aad_for_slot(2, 1));
    assert_ne!(CryptoCtx::aad_for_slot(256, 0), CryptoCtx::aad_for_slot(0, 1));
}

#[test]
fn slot_is_nonce_and_ciphertext() {
    let mut ctx = CryptoCtx::new(KEY, 99, 4);
    let b = PlainBlock::new_real(5, 6, vec![1, 2, 3, 4]);
    let first = ctx.encrypt_block_to_slot(&b, 8, 2);
    let second = ctx.encrypt_block_to_slot(&b, 8, 2);

    let mut rng = StdRng::seed_from_u64(99);
    let cipher = XChaCha20Poly1305::new(Key::from_slice(&KEY));
    for slot in [&first, &second] {
        let mut nonce = [0u8; 24];
        rng.fill(&mut nonce);
        let ct = cipher
            .encrypt(
                XNonce::from_slice(&nonce),
                Payload { msg: &encode_block(&b, 4), aad: &CryptoCtx::aad_for_slot(8, 2) },
            )
            .unwrap();
        assert_eq!(slot[..24], nonce[..]);
        assert_eq!(slot[24..], ct[..]);
    }
    assert_ne!(first, second);
    assert_eq!(first.len(), ctx.slot_len());
}

#[test]
fn slot_decrypts_at_its_place() {
    let mut ctx = CryptoCtx::new(KEY, 3, 3);
    let real = PlainBlock::new_real(11, 2, vec![9, 8, 7]);
    let dummy = PlainBlock::dummy(3);
    let a = ctx.encrypt_block_to_slot(&real, 4, 1);
    let b = ctx.encrypt_block_to_slot(&dummy, 4, 0);
    assert_eq!(a.len(), b.len());
    assert!(same_block(&ctx.decrypt_slot_to_block(&a, 4, 1), &real));
    assert!(same_block(&ctx.decrypt_slot_to_block(&b, 4, 0), &dummy));
    assert!(same_block(&ctx.try_decrypt_slot(&a, 4, 1).unwrap(), &real));
}

#[test]
fn moved_slot_is_refused() {
    let mut ctx = CryptoCtx::new(KEY, 3, 3);
    let real = PlainBlock::new_real(11, 2, vec![9, 8, 7]);
    let slot = ctx.encrypt_block_to_slot(&real, 4, 1);
    assert_eq!(ctx.try_decrypt_slot(&slot, 4, 0).unwrap_err(), SlotError::NotAuthentic);
    assert_eq!(ctx.try_decrypt_slot(&slot, 5, 1).unwrap_err(), SlotError::NotAuthentic);
    assert_eq!(ctx.try_decrypt_slot(&slot, 1, 4).unwrap_err(), SlotError::NotAuthentic);
}

#[test]
fn altered_slot_is_refused() {
    let mut ctx = CryptoCtx::new(KEY, 3, 3);
    let real = PlainBlock::new_real(11, 2, vec![9, 8, 7]);
    let slot = ctx.encrypt_block_to_slot(&real, 4, 1);
    for i in 0..slot.len() {
        let mut bad = slot.clone();
        bad[i] ^= 1;
        assert_eq!(ctx.try_decrypt_slot(&bad, 4, 1).unwrap_err(), SlotError::NotAuthentic);
    }
    assert_eq!(
        ctx.try_decrypt_slot(&slot[..slot.len() - 1], 4, 1).unwrap_err(),
        SlotError::NotAuthentic
    );
    let other = CryptoCtx::new([8u8; 32], 3, 3);
    assert_eq!(other.try_decrypt_slot(&slot, 4, 1).unwrap_err(), SlotError::NotAuthentic);
}

#[test]
fn short_and_foreign_slots_are_refused() {
    let mut ctx = CryptoCtx::new(KEY, 3, 3);
    assert_eq!(ctx.try_decrypt_slot(&[], 0, 0).unwrap_err(), SlotError::TooShort);
    assert_eq!(ctx.try_decrypt_slot(&[0u8; 39], 0, 0).unwrap_err(), SlotError::TooShort);
    assert_eq!(ctx.try_decrypt_slot(&[0u8; 40], 0, 0).unwrap_err(), SlotError::NotAuthentic);
    let slot = ctx.encrypt_block_to_slot(&PlainBlock::dummy(3), 0, 0);
    let larger = CryptoCtx::new(KEY, 3, 4);
    assert_eq!(larger.try_decrypt_slot(&slot, 0, 0).unwrap_err(), SlotError::WrongLength);
    let smaller = CryptoCtx::new(KEY, 3, 2);
    assert_eq!(smaller.try_decrypt_slot(&slot, 0, 0).unwrap_err(), SlotError::WrongLength);
}

#[test]
fn length_and_nonce_tell_nothing_about_the_block() {
    let mut a = CryptoCtx::new([9u8; 32], 5, 8);
    let mut b = CryptoCtx::new([9u8; 32], 5, 8);
    let dummy = a.encrypt_block_to_slot(&PlainBlock::dummy(8), 0, 0);
    let full = b.encrypt_block_to_slot(&PlainBlock::new_real(7, 1, vec![255; 8]), 6, 1);
    assert_eq!(dummy.len(), 64);
    assert_eq!(full.len(), 64);
    assert_eq!(dummy[..24], full[..24]);
    assert_ne!(dummy, full);
    // Both generators have drawn as much.
    let next = PlainBlock::new_real(1, 1, vec![1; 8]);
    assert_eq!(a.encrypt_block_to_slot(&next, 2, 0), b.encrypt_block_to_slot(&next, 2, 0));
}

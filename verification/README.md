# path-oram

Path ORAM: equally long blocks on a server that learns neither their content nor which of them is
accessed. The library is written in Rust with [Verus](https://github.com/verus-lang/verus)
contracts. All of `src/` is verified against them but for five small functions that call the cipher
and the generator.

* A slot on the server is a nonce and an XChaCha20-Poly1305 ciphertext of one block, bound to its
  node and slot number. All slots are equally long.
* Each block is assigned to a random leaf and lies in the stash or on the path to that leaf.
* An access fetches one path, moves its block to a newly drawn leaf, and refills the path from the
  stash, from the leaf to the root, every slot encrypted anew.

What is proved: every access answers with the data last written (zeros for a new block), changes no
other block, loses and doubles none, and keeps every block on the path on record; reads and writes
touch the server in the same way, and the slots that they leave have the same lengths and nonces; no
two slots of a refill share a nonce draw. An access needs only the slots of its own path to be
intact, and `try_access` looks before it starts.

What is taken on trust stands in `src/aead.rs` and `src/generator.rs`. Of the cipher: that
encrypting and decrypting are functions of key, nonce, associated data and message, that encrypting
succeeds up to the cipher's limit on length, that a ciphertext is one tag longer than its message,
and that what was sealed opens again. Of the generator: that what it gives, and the state it is in
afterwards, are functions of its state and of what it is asked for, that a fill gives as many bytes
as asked for, and that a sample is below its bound.

`app/` is a demo that plays random reads and writes against a mirror in the clear.

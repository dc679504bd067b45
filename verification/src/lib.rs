//! Path ORAM with an encrypted server tree.
//!
//! A client keeps equally long blocks on a server that is to learn neither what is in them nor
//! which of them is used. The server holds a complete binary tree of buckets of ciphertext slots.
//! Each block is assigned to a leaf and lies in a bucket on the path to that leaf, or in the
//! client's stash. An access fetches one whole path, assigns its block to a new leaf that is drawn
//! at random, and refills the path from the stash, every slot encrypted anew.
//!
//! * [`client`]: the client, its accesses, and what is true of it between them;
//! * [`replay`]: lists of requests, and what a store answers them;
//! * [`server`], [`tree`]: the server's tree;
//! * [`crypto`], [`block`], [`bytes`]: slots, blocks and their plaintext form;
//! * [`refill`], [`placement`]: how a path is refilled;
//! * [`model`], [`preservation`], [`laws`]: the store as a mathematical object, and what is proved
//!   of it;
//! * [`elementary`]: what the operations do, in elementary terms;
//! * [`aead`], [`generator`]: what is taken on trust of the cipher and of the generator.

pub mod aead;
pub mod block;
pub mod bytes;
pub mod client;
pub mod crypto;
pub mod elementary;
pub mod generator;
pub mod laws;
pub mod model;
pub mod placement;
pub mod preservation;
pub mod refill;
pub mod replay;
pub mod server;
pub mod tree;

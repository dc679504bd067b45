//! Lists of requests: what they must be answered, and a store that answers them.

use crate::block::BlockId;
use crate::client::OramClient;
use crate::crypto::encryptable;
use crate::model::value_in;
use vstd::arithmetic::power2::is_pow2;
use vstd::prelude::*;

verus! {

/// Something to do with a store.
pub enum Request {
    Read { id: BlockId },
    Write { id: BlockId, data: Vec<u8> },
}

impl Request {
    /// The block that the request is for.
    pub open spec fn target(self) -> BlockId {
        match self {
            Request::Read { id } => id,
            Request::Write { id, .. } => id,
        }
    }

    /// Whether the request writes the block with an id.
    pub open spec fn writes(self, id: BlockId) -> bool {
        self is Write && self.target() == id
    }
}

/// The contents of a store that was empty and then served the requests.
pub open spec fn contents_after(requests: Seq<Request>, block_size: nat) -> Map<BlockId, Seq<u8>>
    decreases requests.len(),
{
    if requests.len() == 0 {
        Map::empty()
    } else {
        let before = contents_after(requests.drop_last(), block_size);
        match requests.last() {
            Request::Read { id } => before.insert(id, value_in(before, id, block_size)),
            Request::Write { id, data } => before.insert(id, data@),
        }
    }
}

/// The answers of a store that is empty at first: each request gets the data that its block had
/// before.
pub open spec fn answers(requests: Seq<Request>, block_size: nat) -> Seq<Seq<u8>>
    decreases requests.len(),
{
    if requests.len() == 0 {
        Seq::empty()
    } else {
        answers(requests.drop_last(), block_size).push(
            value_in(
                contents_after(requests.drop_last(), block_size),
                requests.last().target(),
                block_size,
            ),
        )
    }
}

/// Serves the requests, in order, from a new store.
pub fn replay(
    num_leaves: usize,
    z: usize,
    block_size: usize,
    master_seed: u64,
    requests: Vec<Request>,
) -> (replies: Vec<Vec<u8>>)
    requires
        is_pow2(num_leaves as int),
        2 * num_leaves <= usize::MAX,
        encryptable(block_size as nat),
        forall|i: int|
            0 <= i < requests@.len() ==> ((#[trigger] requests@[i]) matches Request::Write {
                data,
                ..
            } ==> data@.len() == block_size),
    ensures
        replies@.map_values(|r: Vec<u8>| r@) == answers(requests@, block_size as nat),
        replies@.len() == requests@.len(),
        forall|w: int, i: int|
            #![trigger requests@[w], replies@[i]]
            0 <= w < i < requests@.len() && requests@[w] is Write && requests@[w]->Write_id == (
            match requests@[i] {
                Request::Read { id } => id,
                Request::Write { id, .. } => id,
            }) && (forall|j: int|
                w < j < i && (#[trigger] requests@[j]) is Write ==> requests@[j]->Write_id
                    != requests@[w]->Write_id) ==> replies@[i]@ == requests@[w]->Write_data@,
        forall|i: int|
            0 <= i < requests@.len() && (forall|j: int|
                0 <= j < i && (#[trigger] requests@[j]) is Write ==> requests@[j]->Write_id != (
                match requests@[i] {
                    Request::Read { id } => id,
                    Request::Write { id, .. } => id,
                })) ==> (#[trigger] replies@[i])@ == Seq::new(block_size as nat, |k: int| 0u8),
{
    let ghost all = requests@;
    let mut client = OramClient::new(num_leaves, z, block_size, master_seed);
    let mut replies: Vec<Vec<u8>> = Vec::with_capacity(requests.len());
    let ghost mut i: int = 0;
    proof {
        assert(all.take(0) =~= Seq::empty());
        assert(replies@.map_values(|r: Vec<u8>| r@) =~= Seq::empty());
    }
    for request in it: requests.into_iter()
        invariant
            i == it.index(),
            it.seq() == all,
            client.wf(),
            client.crypto.block_size == block_size,
            forall|i: int|
                0 <= i < all.len() ==> ((#[trigger] all[i]) matches Request::Write { data, .. }
                    ==> data@.len() == block_size),
            client@.contents() == contents_after(all.take(i), block_size as nat),
            replies@.map_values(|r: Vec<u8>| r@) == answers(all.take(i), block_size as nat),
    {
        let ghost sent = replies@;
        proof {
            assert(request == all[i]);
            assert(all.take(i + 1).drop_last() =~= all.take(i));
            assert(all.take(i + 1).last() == request);
        }
        let reply = match request {
            Request::Read { id } => client.read(id),
            Request::Write { id, data } => client.write(id, data),
        };
        replies.push(reply);
        proof {
            assert(replies@.map_values(|r: Vec<u8>| r@) =~= sent.map_values(
                |r: Vec<u8>| r@,
            ).push(reply@));
            i = i + 1;
        }
    }
    assert(all.take(all.len() as int) =~= all);
    proof {
        let views = replies@.map_values(|r: Vec<u8>| r@);
        lemma_answers(all, block_size as nat);
        assert(forall|i: int| 0 <= i < replies@.len() ==> views[i] == (#[trigger] replies@[i])@);
        assert forall|w: int, i: int|
            #![trigger all[w], replies@[i]]
            0 <= w < i < all.len() && all[w] is Write && all[w]->Write_id == all[i].target() && (
            forall|j: int|
                w < j < i && (#[trigger] all[j]) is Write ==> all[j]->Write_id
                    != all[w]->Write_id) implies replies@[i]@ == all[w]->Write_data@ by {
            let past = all.take(i);
            assert(past[w] == all[w]);
            assert forall|j: int| w < j < past.len() implies !(#[trigger] past[j]).writes(
                all[w]->Write_id,
            ) by {
                assert(past[j] == all[j]);
            }
            last_write_is_read(past, w, all[w]->Write_id, block_size as nat);
        }
        assert forall|i: int|
            0 <= i < all.len() && (forall|j: int|
                0 <= j < i && (#[trigger] all[j]) is Write ==> all[j]->Write_id
                    != all[i].target()) implies (#[trigger] replies@[i])@ == Seq::new(
            block_size as nat,
            |k: int| 0u8,
        ) by {
            let past = all.take(i);
            assert forall|j: int| 0 <= j < past.len() implies !(#[trigger] past[j]).writes(
                all[i].target(),
            ) by {
                assert(past[j] == all[j]);
            }
            unwritten_reads_zeros(past, all[i].target(), block_size as nat);
        }
    }
    replies
}

/// There is one answer to each request: the data that its block had after those before.
proof fn lemma_answers(requests: Seq<Request>, block_size: nat)
    ensures
        answers(requests, block_size).len() == requests.len(),
        forall|i: int|
            0 <= i < requests.len() ==> #[trigger] answers(requests, block_size)[i] == value_in(
                contents_after(requests.take(i), block_size),
                requests[i].target(),
                block_size,
            ),
    decreases requests.len(),
{
    if requests.len() > 0 {
        let init = requests.drop_last();
        lemma_answers(init, block_size);
        assert forall|i: int| 0 <= i < requests.len() implies #[trigger] answers(
            requests,
            block_size,
        )[i] == value_in(
            contents_after(requests.take(i), block_size),
            requests[i].target(),
            block_size,
        ) by {
            assert(requests.take(requests.len() - 1) =~= init);
            if i < init.len() {
                assert(requests.take(i) =~= init.take(i));
                assert(answers(requests, block_size)[i] == answers(init, block_size)[i]);
            }
        }
    }
}

/// Between a write and the next write of the same block, the block reads as what was written,
/// whatever else is read and written.
pub proof fn last_write_is_read(requests: Seq<Request>, w: int, id: BlockId, block_size: nat)
    requires
        0 <= w < requests.len(),
        requests[w].writes(id),
        forall|j: int| w < j < requests.len() ==> !(#[trigger] requests[j]).writes(id),
    ensures
        value_in(contents_after(requests, block_size), id, block_size)
            == requests[w]->Write_data@,
    decreases requests.len(),
{
    let init = requests.drop_last();
    if w < requests.len() - 1 {
        assert forall|j: int| w < j < init.len() implies !(#[trigger] init[j]).writes(id) by {
            assert(init[j] == requests[j]);
        }
        last_write_is_read(init, w, id, block_size);
        assert(!requests[requests.len() - 1].writes(id));
    }
}

/// A block that was never written reads as zeros.
pub proof fn unwritten_reads_zeros(requests: Seq<Request>, id: BlockId, block_size: nat)
    requires
        forall|j: int| 0 <= j < requests.len() ==> !(#[trigger] requests[j]).writes(id),
    ensures
        value_in(contents_after(requests, block_size), id, block_size) == crate::block::zeros(
            block_size,
        ),
    decreases requests.len(),
{
    if requests.len() > 0 {
        let init = requests.drop_last();
        assert forall|j: int| 0 <= j < init.len() implies !(#[trigger] init[j]).writes(id) by {
            assert(init[j] == requests[j]);
        }
        unwritten_reads_zeros(init, id, block_size);
        assert(!requests[requests.len() - 1].writes(id));
    }
}

} // verus!

//! What holds of two nodes that talk: the shorter one catches up, pulled or
//! pushed, and each learns the addresses that the other knows.
use vstd::prelude::*;

use crate::addrbook::{sane, BookModel};
use crate::block::BlockModel;
use crate::bytes::le_bytes;
use crate::catchup::{
    carries_chain, holds_chain, keeps_to_chain, law_calm_node_keeps_to_chain,
    law_peer_with_stash_carries_chain, law_sent_chain_is_taken, lemma_above_is_stored, on_the_way,
    undisturbed, Delivery,
};
use crate::codec::{addresses, addrs_bytes, blocks, blocks_bytes, payload};
use crate::fork::none_above;
use crate::node::{incoming_outcome, NodeModel};
use crate::protocol::{
    after_addrs, applied_count, blocks_above, delivered, gossip_step, handled, lists_book,
    merged_all, news_count, step_addrs, step_blocks, step_handshake, step_mempool, GossipRound,
    GossipStage, Out, Reply, SessionModel,
};
use crate::roundtrip::{
    block_fits, law_addrs_round_trip, law_blocks_round_trip, law_payload_round_trip,
};
use crate::sig::ClaimModel;
use crate::wire::{
    lemma_word64, word64, MAX_BOOK, MAX_MSG, MSG_ADDR, MSG_BLOCKS, MSG_GETADDR, MSG_GETBLOCKS,
    MSG_GETMEMPOOL, MSG_PING, MSG_PONG, MSG_TX, NetError, WireFault,
};

verus! {

// ---------------------------------------------------------------------------
// blocks
// ---------------------------------------------------------------------------

/// What a peer that was asked for the blocks above a node's tip sends it.
pub open spec fn from_peer(
    n: NodeModel,
    peer: NodeModel,
    list: Seq<BlockModel>,
    k: int,
    verified: Set<ClaimModel>,
) -> Delivery {
    Delivery {
        node: n,
        list,
        k,
        sent: blocks_above(peer.blocks, n.chain.tip_height),
        verified,
    }
}

/// Stashed blocks do not hinder a peer from bringing a node to its tip: besides
/// its chain the peer may have stored siblings of its blocks and blocks that
/// came without an ancestor and cannot win, and the node any block that is not
/// above its tip.
pub proof fn law_stash_does_not_hinder(
    n: NodeModel,
    peer: NodeModel,
    list: Seq<BlockModel>,
    k: int,
    verified: Set<ClaimModel>,
)
    requires
        on_the_way(from_peer(n, peer, list, k, verified), peer.chain),
        holds_chain(from_peer(n, peer, list, k, verified), peer.blocks),
        forall|t: int| 0 <= t < k ==> n.blocks.contains(#[trigger] list[t]),
        none_above(n),
    ensures
        carries_chain(from_peer(n, peer, list, k, verified)),
        keeps_to_chain(from_peer(n, peer, list, k, verified)),
{
    let d = from_peer(n, peer, list, k, verified);
    law_peer_with_stash_carries_chain(d, peer.chain, peer.blocks);
    law_calm_node_keeps_to_chain(d, peer.chain);
}

/// The blocks of a peer above a height travel in one message.
proof fn lemma_above_travels(store: Seq<BlockModel>, height: u64)
    requires
        store.len() <= MAX_MSG,
        forall|i: int| 0 <= i < store.len() ==> block_fits(#[trigger] store[i]),
    ensures
        payload(blocks(), blocks_bytes(blocks_above(store, height))) == Ok::<
            Seq<BlockModel>,
            WireFault,
        >(blocks_above(store, height)),
{
    let list = blocks_above(store, height);
    lemma_above_is_stored(store, height);
    assert forall|i: int| 0 <= i < list.len() implies block_fits(#[trigger] list[i]) by {
        let t = choose|t: int| 0 <= t < store.len() && store[t] == list[i];
        assert(block_fits(store[t]));
    }
    law_blocks_round_trip(list);
    law_payload_round_trip(blocks(), blocks_bytes(list), list);
}

/// How a reply with blocks is taken in a round.
proof fn lemma_reply_is_delivered(
    g: SessionModel,
    n: NodeModel,
    body: Seq<u8>,
    list: Seq<BlockModel>,
    now: u64,
    verified: Set<ClaimModel>,
)
    requires
        g.stage == GossipStage::Blocks,
        payload(blocks(), body) == Ok::<Seq<BlockModel>, WireFault>(list),
    ensures
        gossip_step(g, n, MSG_BLOCKS, body, now, verified).0 == delivered(n, list, verified).0,
        delivered(n, list, verified).1 is None ==> (gossip_step(
            g,
            n,
            MSG_BLOCKS,
            body,
            now,
            verified,
        ).1 matches Ok((next, _)) && next.round.pulled == applied_count(
            n,
            list,
            verified,
        ) as usize),
{
}

/// How pushed blocks are taken.
proof fn lemma_push_is_delivered(
    n: NodeModel,
    body: Seq<u8>,
    list: Seq<BlockModel>,
    now: u64,
    verified: Set<ClaimModel>,
)
    requires
        payload(blocks(), body) == Ok::<Seq<BlockModel>, WireFault>(list),
    ensures
        handled(n, MSG_BLOCKS, body, now, verified).0 == delivered(n, list, verified).0,
        delivered(n, list, verified).1 is None ==> handled(n, MSG_BLOCKS, body, now, verified).1
            == Ok::<Reply, NetError>(Reply::Silence),
{
}

/// Pull: a node that asks a taller peer on its own chain for blocks gets a
/// reply that brings it to the peer's tip. The peer's chain has to stand in its
/// store in order, with every other block beside it. Of the blocks in the reply
/// a node that goes over to no stored branch counts those of the chain.
#[verifier::rlimit(30)]
pub proof fn law_pull_converges(
    n: NodeModel,
    peer: NodeModel,
    list: Seq<BlockModel>,
    k: int,
    g: SessionModel,
    now: u64,
    verified: Set<ClaimModel>,
)
    requires
        on_the_way(from_peer(n, peer, list, k, verified), peer.chain),
        carries_chain(from_peer(n, peer, list, k, verified)),
        keeps_to_chain(from_peer(n, peer, list, k, verified)),
        peer.blocks.len() <= MAX_MSG,
        forall|i: int| 0 <= i < peer.blocks.len() ==> block_fits(#[trigger] peer.blocks[i]),
        g.stage == GossipStage::Blocks,
        g.our_height == n.chain.tip_height,
    ensures
        ({
            let d = from_peer(n, peer, list, k, verified);
            let reply = blocks_bytes(blocks_above(peer.blocks, g.our_height));
            &&& handled(peer, MSG_GETBLOCKS, le_bytes(g.our_height as nat, 8), now, verified).1
                == Ok::<Reply, NetError>(Reply::Exactly((MSG_BLOCKS, reply)))
            &&& gossip_step(g, n, MSG_BLOCKS, reply, now, verified).0.chain == peer.chain
            &&& gossip_step(g, n, MSG_BLOCKS, reply, now, verified).1 matches Ok((next, _))
            &&& none_above(n) || undisturbed(d, d.sent.len() as int) ==> next.round.pulled
                == list.len() - k
        }),
{
    let d = from_peer(n, peer, list, k, verified);
    lemma_word64(g.our_height);
    law_payload_round_trip(word64(), le_bytes(g.our_height as nat, 8), g.our_height);
    law_sent_chain_is_taken(d, peer.chain);
    if none_above(n) {
        law_calm_node_keeps_to_chain(d, peer.chain);
    }
    lemma_above_travels(peer.blocks, g.our_height);
    lemma_above_is_stored(peer.blocks, g.our_height);
    lemma_count_is_small(n, d.sent, verified);
    lemma_reply_is_delivered(g, n, blocks_bytes(d.sent), d.sent, now, verified);
}

/// No more blocks are applied than are sent.
proof fn lemma_count_is_small(n: NodeModel, list: Seq<BlockModel>, verified: Set<ClaimModel>)
    ensures
        applied_count(n, list, verified) <= list.len(),
    decreases list.len(),
{
    if list.len() > 0 && incoming_outcome(n, list[0], verified) is Ok {
        lemma_count_is_small(
            incoming_outcome(n, list[0], verified)->Ok_0,
            list.drop_first(),
            verified,
        );
    }
}

/// Push: a node that is sent the blocks above its tip by a taller peer on its
/// own chain ends on the peer's tip, as with a pull.
pub proof fn law_push_converges(
    n: NodeModel,
    peer: NodeModel,
    list: Seq<BlockModel>,
    k: int,
    now: u64,
    verified: Set<ClaimModel>,
)
    requires
        on_the_way(from_peer(n, peer, list, k, verified), peer.chain),
        carries_chain(from_peer(n, peer, list, k, verified)),
        keeps_to_chain(from_peer(n, peer, list, k, verified)),
        peer.blocks.len() <= MAX_MSG,
        forall|i: int| 0 <= i < peer.blocks.len() ==> block_fits(#[trigger] peer.blocks[i]),
    ensures
        ({
            let body = blocks_bytes(blocks_above(peer.blocks, n.chain.tip_height));
            &&& handled(n, MSG_BLOCKS, body, now, verified).0.chain == peer.chain
            &&& handled(n, MSG_BLOCKS, body, now, verified).1 == Ok::<Reply, NetError>(
                Reply::Silence,
            )
        }),
{
    let d = from_peer(n, peer, list, k, verified);
    law_sent_chain_is_taken(d, peer.chain);
    lemma_above_travels(peer.blocks, n.chain.tip_height);
    lemma_push_is_delivered(n, blocks_bytes(d.sent), d.sent, now, verified);
}

/// A ping comes back with the number that it carried.
pub proof fn law_ping_is_echoed(n: NodeModel, v: u64, now: u64, verified: Set<ClaimModel>)
    ensures
        handled(n, MSG_PING, le_bytes(v as nat, 8), now, verified) == (
            n,
            Ok::<Reply, NetError>(Reply::Exactly((MSG_PONG, le_bytes(v as nat, 8)))),
        ),
{
    lemma_word64(v);
    law_payload_round_trip(word64(), le_bytes(v as nat, 8), v);
}

/// Whether the pool is relayed by the message.
pub open spec fn relays_pool(m: Out) -> bool {
    m.0 == MSG_TX || m.0 == MSG_GETMEMPOOL
}

/// Chain sync precedes pool sync: a round relays transactions only once there
/// is no block left to pull, and pushes its own blocks first.
#[verifier::rlimit(30)]
pub proof fn law_chain_sync_precedes_pool_sync(
    g: SessionModel,
    n: NodeModel,
    kind: u8,
    body: Seq<u8>,
    now: u64,
    verified: Set<ClaimModel>,
    next: SessionModel,
    out: Seq<Out>,
    i: int,
)
    requires
        gossip_step(g, n, kind, body, now, verified).1 == Ok::<(SessionModel, Seq<Out>), NetError>(
            (next, out),
        ),
        0 <= i < out.len(),
        relays_pool(out[i]),
    ensures
        g.stage == GossipStage::Blocks || (g.stage == GossipStage::Addrs && g.round.their_height
            <= g.our_height),
        forall|j: int| 0 <= j < out.len() && (#[trigger] out[j]).0 == MSG_BLOCKS ==> j < i,
{
    match g.stage {
        GossipStage::Handshake => lemma_handshake_sends(g, n, kind, body, now, next, out),
        GossipStage::Addrs => lemma_addrs_sends(g, n, kind, body, now, next, out),
        GossipStage::Blocks => lemma_blocks_sends(g, n, kind, body, verified, next, out),
        GossipStage::Mempool => lemma_mempool_sends(g, n, kind, body, verified, next, out),
        GossipStage::Finished => {},
    }
}

proof fn lemma_handshake_sends(
    g: SessionModel,
    n: NodeModel,
    kind: u8,
    body: Seq<u8>,
    now: u64,
    next: SessionModel,
    out: Seq<Out>,
)
    requires
        step_handshake(g, n, kind, body, now).1 == Ok::<(SessionModel, Seq<Out>), NetError>(
            (next, out),
        ),
    ensures
        out.len() == 2,
        out[0].0 == MSG_ADDR,
        out[1].0 == MSG_GETADDR,
{
}

proof fn lemma_addrs_sends(
    g: SessionModel,
    n: NodeModel,
    kind: u8,
    body: Seq<u8>,
    now: u64,
    next: SessionModel,
    out: Seq<Out>,
)
    requires
        step_addrs(g, n, kind, body, now).1 == Ok::<(SessionModel, Seq<Out>), NetError>(
            (next, out),
        ),
    ensures
        g.round.their_height > g.our_height ==> out.len() == 1 && out[0].0 == MSG_GETBLOCKS,
        forall|i: int|
            0 <= i < out.len() && (#[trigger] out[i]).0 == MSG_BLOCKS ==> i == 0 && out.len() == 3,
        out.len() == 3 ==> out[0].0 == MSG_BLOCKS,
{
    let list = payload(addresses(), body)->Ok_0;
    let m = NodeModel { book: merged_all(n.book, n.listen, list, now), ..n };
    let learned = news_count(n.book, n.listen, list, now) as usize;
    lemma_after_addrs(SessionModel { round: GossipRound { learned, ..g.round }, ..g }, m);
}

proof fn lemma_blocks_sends(
    g: SessionModel,
    n: NodeModel,
    kind: u8,
    body: Seq<u8>,
    verified: Set<ClaimModel>,
    next: SessionModel,
    out: Seq<Out>,
)
    requires
        step_blocks(g, n, kind, body, verified).1 == Ok::<(SessionModel, Seq<Out>), NetError>(
            (next, out),
        ),
    ensures
        out.len() == 2,
        out[0].0 == MSG_TX,
        out[1].0 == MSG_GETMEMPOOL,
{
}

proof fn lemma_mempool_sends(
    g: SessionModel,
    n: NodeModel,
    kind: u8,
    body: Seq<u8>,
    verified: Set<ClaimModel>,
    next: SessionModel,
    out: Seq<Out>,
)
    requires
        step_mempool(g, n, kind, body, verified).1 == Ok::<(SessionModel, Seq<Out>), NetError>(
            (next, out),
        ),
    ensures
        out.len() == 0,
{
}

/// The order of the messages that a round sends once the peer's book is in.
proof fn lemma_after_addrs(g: SessionModel, n: NodeModel)
    ensures
        ({
            let out = after_addrs(g, n).1;
            &&& g.round.their_height > g.our_height ==> out.len() == 1 && out[0].0 == MSG_GETBLOCKS
            &&& forall|i: int|
                0 <= i < out.len() && (#[trigger] out[i]).0 == MSG_BLOCKS ==> i == 0 && out.len()
                    == 3
            &&& out.len() == 3 ==> out[0].0 == MSG_BLOCKS
        }),
{
}

/// A message that is refused changes nothing, but for a list of blocks, which
/// is taken up to the block that is refused.
#[verifier::rlimit(30)]
pub proof fn law_refused_message_changes_nothing(
    n: NodeModel,
    kind: u8,
    body: Seq<u8>,
    now: u64,
    verified: Set<ClaimModel>,
)
    requires
        handled(n, kind, body, now, verified).1 is Err,
    ensures
        kind != MSG_BLOCKS ==> handled(n, kind, body, now, verified).0 == n,
        kind == MSG_BLOCKS ==> match payload(blocks(), body) {
            Ok(list) => handled(n, kind, body, now, verified).0 == delivered(n, list, verified).0,
            Err(_) => handled(n, kind, body, now, verified).0 == n,
        },
{
}

// ---------------------------------------------------------------------------
// addresses
// ---------------------------------------------------------------------------

proof fn lemma_merged_grows(
    book: BookModel,
    listen: Seq<char>,
    list: Seq<Seq<char>>,
    now: u64,
    m: int,
)
    requires
        book.seen.dom().finite(),
        0 <= m <= list.len(),
    ensures
        ({
            let next = merged_all(book, listen, list.take(m), now).seen;
            &&& next.dom().finite()
            &&& next.dom().len() <= book.seen.dom().len() + m
            &&& forall|a: Seq<char>| #[trigger] book.seen.contains_key(a) ==> next.contains_key(a)
        }),
    decreases m,
{
    if m > 0 {
        lemma_merged_grows(book, listen, list, now, m - 1);
        assert(list.take(m).drop_last() =~= list.take(m - 1));
    } else {
        assert(list.take(0) =~= Seq::empty());
    }
}

proof fn lemma_merged_learns(
    book: BookModel,
    listen: Seq<char>,
    list: Seq<Seq<char>>,
    now: u64,
    m: int,
    i: int,
)
    requires
        book.seen.dom().finite(),
        book.seen.dom().len() + list.len() <= MAX_BOOK,
        0 <= i < m <= list.len(),
        sane(list[i]),
        list[i] != listen,
    ensures
        merged_all(book, listen, list.take(m), now).seen.contains_key(list[i]),
    decreases m,
{
    lemma_merged_grows(book, listen, list, now, m - 1);
    assert(list.take(m).drop_last() =~= list.take(m - 1));
    assert(list.take(m).last() == list[m - 1]);
    if i < m - 1 {
        lemma_merged_learns(book, listen, list, now, m - 1, i);
    }
}

/// A node with room in its book that is sent a peer's book knows every sane
/// address of it afterwards, save its own.
pub proof fn law_addresses_spread(
    n: NodeModel,
    peer: BookModel,
    body: Seq<u8>,
    now: u64,
    verified: Set<ClaimModel>,
    a: Seq<char>,
)
    requires
        lists_book(body, peer),
        crate::addrbook::book_ok(peer.seen),
        n.book.seen.dom().finite(),
        n.book.seen.dom().len() + peer.seen.dom().len() <= MAX_BOOK,
        peer.seen.contains_key(a),
        a != n.listen,
    ensures
        handled(n, MSG_ADDR, body, now, verified).1 == Ok::<Reply, NetError>(Reply::Silence),
        handled(n, MSG_ADDR, body, now, verified).0.book.seen.contains_key(a),
{
    let list = choose|list: Seq<Seq<char>>|
        list.no_duplicates() && list.to_set() == peer.seen.dom() && body == #[trigger] addrs_bytes(
            list,
        );
    list.unique_seq_to_set();
    assert forall|i: int| 0 <= i < list.len() implies vstd::utf8::encode_utf8(
        #[trigger] list[i],
    ).len() <= MAX_MSG by {
        assert(list.to_set().contains(list[i]));
        assert(peer.seen.contains_key(list[i]));
        assert(sane(list[i]));
    }
    law_addrs_round_trip(list);
    law_payload_round_trip(addresses(), addrs_bytes(list), list);
    assert(list.to_set().contains(a));
    let i = choose|i: int| 0 <= i < list.len() && list[i] == a;
    assert(sane(a));
    lemma_merged_learns(n.book, n.listen, list, now, list.len() as int, i);
    assert(list.take(list.len() as int) =~= list);
}

} // verus!

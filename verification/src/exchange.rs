//! What nodes say to each other, message by message, and what each message
//! changes.
use vstd::prelude::*;
use vstd::utf8::encode_utf8;

use crate::addrbook::{book_ok, is_news, merged, sane, BookModel};
use crate::block::BlockModel;
use crate::bytes::le_bytes;
use crate::chain::{Coins, NodeError};
use crate::codec::{
    addresses, addrs_bytes, block_bytes, blocks, blocks_bytes, handshake, handshake_bytes, payload,
    tx, tx_bytes, Message,
};
use crate::layout::{law_blocks_layout, law_list_layout};
use crate::node::{admissions, incoming_outcome, offered, NodeModel};
use crate::protocol::{
    applied_count, blocks_above, delivered, gossip_step, greeting, handled, is_reply, lists_book,
    merged_all, news_count, polite_end, GossipStage, Out, Reply, SessionModel,
};
use crate::roundtrip::{law_addrs_round_trip, law_handshake_round_trip, law_payload_round_trip};
use crate::sig::ClaimModel;
use crate::tx::TxModel;
use crate::wire::{
    counted, lemma_word64, word64, MAGIC, MAX_MSG, MSG_ADDR, MSG_BLOCKS, MSG_GETADDR, MSG_GETBLOCKS,
    MSG_GETMEMPOOL, MSG_HANDSHAKE, MSG_MEMPOOL, MSG_PING, MSG_TX, IoKind, NetError, WireFault,
};

verus! {

// ---------------------------------------------------------------------------
// pieces
// ---------------------------------------------------------------------------

/// The blocks above a height are all the stored blocks with a greater height,
/// in the order of the store.
pub proof fn law_blocks_above_are_all(store: Seq<BlockModel>, height: u64)
    ensures
        blocks_above(store, height) == store.filter(|b: BlockModel| b.height > height),
    decreases store.len(),
{
    reveal(Seq::filter);
    if store.len() > 0 {
        law_blocks_above_are_all(store.drop_last(), height);
    }
}

/// A first message is taken exactly if it is a handshake with our magic; its
/// height is then the peer's, whatever its version, and whatever follows it.
pub proof fn law_greeting_is_checked(
    kind: u8,
    magic: u32,
    version: u32,
    height: u64,
    rest: Seq<u8>,
)
    ensures
        ({
            let body = le_bytes(magic as nat, 4) + le_bytes(version as nat, 4) + le_bytes(
                height as nat,
                8,
            );
            let got = greeting(kind, body + rest);
            &&& kind != MSG_HANDSHAKE ==> got == Err::<u64, _>(NetError::UnknownMsg(kind))
            &&& kind == MSG_HANDSHAKE && magic != MAGIC ==> got == Err::<u64, _>(
                NetError::BadMagic,
            )
            &&& kind == MSG_HANDSHAKE && magic == MAGIC ==> got == Ok::<u64, NetError>(height)
        }),
{
    let body = le_bytes(magic as nat, 4) + le_bytes(version as nat, 4) + le_bytes(
        height as nat,
        8,
    );
    law_handshake_round_trip(magic, version, height);
    assert(handshake_bytes(magic, version, height) =~= body);
    assert(handshake()(body + rest) == Ok::<_, WireFault>(
        ((magic, (version, height)), rest),
    ));
}

/// Merging an address adds it with its time if it is sane and the book has room
/// or knows it, and changes nothing otherwise; it is news if it was not known.
pub proof fn law_address_is_merged(book: BookModel, a: Seq<char>, now: u64)
    ensures
        ({
            let next = merged(book, a, now);
            let known = book.seen.contains_key(a);
            let room = book.seen.dom().len() < 512;
            &&& sane(a) && (known || room) ==> next.seen == book.seen.insert(a, now) && next.dirty
            &&& !(sane(a) && (known || room)) ==> next == book
            &&& next.persistent == book.persistent
            &&& is_news(book, a) <==> sane(a) && !known && room
        }),
{
}

proof fn lemma_merged_step(book: BookModel, a: Seq<char>, now: u64)
    requires
        book.seen.dom().finite(),
    ensures
        merged(book, a, now).seen.dom().finite(),
        is_news(book, a) ==> merged(book, a, now).seen.dom().len() == book.seen.dom().len() + 1,
        !is_news(book, a) ==> merged(book, a, now).seen.dom() == book.seen.dom(),
{
    if !is_news(book, a) {
        assert(merged(book, a, now).seen.dom() =~= book.seen.dom());
    }
}

/// The count of new addresses is by how much the book grew.
pub proof fn law_news_is_what_the_book_grew(
    book: BookModel,
    listen: Seq<char>,
    addrs: Seq<Seq<char>>,
    now: u64,
)
    requires
        book.seen.dom().finite(),
    ensures
        merged_all(book, listen, addrs, now).seen.dom().finite(),
        merged_all(book, listen, addrs, now).seen.dom().len() == book.seen.dom().len() + news_count(
            book,
            listen,
            addrs,
            now,
        ),
        news_count(book, listen, addrs, now) <= addrs.len(),
    decreases addrs.len(),
{
    if addrs.len() > 0 {
        let front = addrs.drop_last();
        law_news_is_what_the_book_grew(book, listen, front, now);
        lemma_merged_step(merged_all(book, listen, front, now), addrs.last(), now);
    }
}

/// What a book with room knows after a list of addresses was merged: what it
/// knew, and every sane address of the list but the node's own. Those of the
/// list have the new time, the others keep theirs.
pub proof fn law_list_of_addresses_is_merged(
    book: BookModel,
    listen: Seq<char>,
    addrs: Seq<Seq<char>>,
    now: u64,
    a: Seq<char>,
)
    requires
        book.seen.dom().finite(),
        book.seen.dom().len() + addrs.len() <= 512,
    ensures
        ({
            let next = merged_all(book, listen, addrs, now);
            let told = addrs.contains(a) && sane(a) && a != listen;
            &&& next.seen.contains_key(a) <==> book.seen.contains_key(a) || told
            &&& told ==> next.seen[a] == now
            &&& !told && book.seen.contains_key(a) ==> next.seen[a] == book.seen[a]
            &&& next.persistent == book.persistent
            &&& told || book.dirty ==> next.dirty
        }),
    decreases addrs.len(),
{
    if addrs.len() > 0 {
        let front = addrs.drop_last();
        let last = addrs.last();
        law_list_of_addresses_is_merged(book, listen, front, now, a);
        law_news_is_what_the_book_grew(book, listen, front, now);
        if front.contains(a) {
            let i = choose|i: int| 0 <= i < front.len() && front[i] == a;
            assert(addrs[i] == a);
        }
        if addrs.contains(a) && a != last {
            let i = choose|i: int| 0 <= i < addrs.len() && addrs[i] == a;
            assert(front[i] == a);
        }
        if a == last {
            assert(addrs[addrs.len() - 1] == a);
        }
    }
}

/// A node never takes up its own address.
pub proof fn law_own_address_is_not_merged(
    book: BookModel,
    listen: Seq<char>,
    addrs: Seq<Seq<char>>,
    now: u64,
)
    ensures
        merged_all(book, listen, addrs, now).seen.contains_key(listen)
            == book.seen.contains_key(listen),
        book.seen.contains_key(listen) ==> merged_all(book, listen, addrs, now).seen[listen]
            == book.seen[listen],
    decreases addrs.len(),
{
    if addrs.len() > 0 {
        law_own_address_is_not_merged(book, listen, addrs.drop_last(), now);
    }
}

/// Blocks are delivered in turn: a list with one block more comes to what that
/// block comes to after the others, unless one of those was refused, which ends
/// the delivery with what came before it.
pub proof fn law_blocks_are_delivered_in_turn(
    n: NodeModel,
    list: Seq<BlockModel>,
    b: BlockModel,
    verified: Set<ClaimModel>,
)
    ensures
        delivered(n, Seq::empty(), verified) == (n, None::<NodeError>),
        applied_count(n, Seq::empty(), verified) == 0,
        ({
            let (m, fault) = delivered(n, list, verified);
            let got = delivered(n, list.push(b), verified);
            let count = applied_count(n, list, verified);
            let more = applied_count(n, list.push(b), verified);
            match fault {
                Some(e) => got == (m, Some(e)) && more == count,
                None => match incoming_outcome(m, b, verified) {
                    Ok(next) => got == (next, None::<NodeError>) && more == count + (
                    if next.chain != m.chain {
                        1int
                    } else {
                        0int
                    }),
                    Err(e) => got == (m, Some(e)) && more == count,
                },
            }
        }),
    decreases list.len(),
{
    let all = list.push(b);
    if list.len() > 0 {
        assert(all[0] == list[0]);
        assert(all.drop_first() =~= list.drop_first().push(b));
        match incoming_outcome(n, list[0], verified) {
            Ok(next) => {
                law_blocks_are_delivered_in_turn(next, list.drop_first(), b, verified);
            },
            Err(_) => {},
        }
    } else {
        assert(all[0] == b);
        assert(all.drop_first() =~= Seq::empty());
        match incoming_outcome(n, b, verified) {
            Ok(next) => {
                assert(delivered(next, all.drop_first(), verified) == (next, None::<NodeError>));
                assert(applied_count(next, all.drop_first(), verified) == 0);
            },
            Err(_) => {},
        }
    }
}

// ---------------------------------------------------------------------------
// answering
// ---------------------------------------------------------------------------

/// A request for blocks is answered with every stored block above the height,
/// in order, and changes nothing.
pub proof fn law_block_request_is_answered(
    n: NodeModel,
    height: u64,
    now: u64,
    verified: Set<ClaimModel>,
)
    ensures
        ({
            let above = n.blocks.filter(|b: BlockModel| b.height > height);
            handled(n, MSG_GETBLOCKS, le_bytes(height as nat, 8), now, verified) == (
                n,
                Ok::<Reply, NetError>(
                    Reply::Exactly(
                        (
                            MSG_BLOCKS,
                            le_bytes(above.len(), 4) + above.map_values(
                                block_bytes(),
                            ).flatten(),
                        ),
                    ),
                ),
            )
        }),
{
    lemma_word64(height);
    law_payload_round_trip(word64(), le_bytes(height as nat, 8), height);
    law_blocks_above_are_all(n.blocks, height);
    law_blocks_layout(n.blocks.filter(|b: BlockModel| b.height > height));
}

/// A request for the pool is answered with every pooled transaction, in order;
/// one for addresses with the book. Neither changes anything.
pub proof fn law_pool_and_book_requests_are_answered(
    n: NodeModel,
    body: Seq<u8>,
    now: u64,
    verified: Set<ClaimModel>,
)
    ensures
        handled(n, MSG_GETMEMPOOL, body, now, verified) == (
            n,
            Ok::<Reply, NetError>(
                Reply::Exactly(
                    (
                        MSG_MEMPOOL,
                        le_bytes(n.pool.len(), 4) + n.pool.map_values(tx_bytes()).flatten(),
                    ),
                ),
            ),
        ),
        handled(n, MSG_GETADDR, body, now, verified) == (n, Ok::<Reply, NetError>(Reply::Book)),
{
    law_list_layout(tx_bytes(), n.pool);
}

/// A list of addresses goes into the book, a list of transactions is offered to
/// the pool, and a list of blocks is delivered, each without a reply; nothing
/// else changes. A list that cannot be read is refused and changes nothing.
pub proof fn law_lists_are_taken(
    n: NodeModel,
    body: Seq<u8>,
    now: u64,
    verified: Set<ClaimModel>,
)
    ensures
        match payload(addresses(), body) {
            Ok(list) => handled(n, MSG_ADDR, body, now, verified) == (
                NodeModel { book: merged_all(n.book, n.listen, list, now), ..n },
                Ok::<Reply, NetError>(Reply::Silence),
            ),
            Err(e) => handled(n, MSG_ADDR, body, now, verified) == (n, Err::<Reply, _>(e.net())),
        },
        match payload(counted(tx(), 4096), body) {
            Ok(list) => handled(n, MSG_TX, body, now, verified) == (
                NodeModel { pool: offered(n.pool, list, n.chain.utxos, verified), ..n },
                Ok::<Reply, NetError>(Reply::Silence),
            ),
            Err(e) => handled(n, MSG_TX, body, now, verified) == (n, Err::<Reply, _>(e.net())),
        },
        match payload(blocks(), body) {
            Ok(list) => {
                let (next, fault) = delivered(n, list, verified);
                let got = handled(n, MSG_BLOCKS, body, now, verified);
                &&& got.0 == next
                &&& fault is None ==> got.1 == Ok::<Reply, NetError>(Reply::Silence)
                &&& fault matches Some(e) ==> got.1 == Err::<Reply, _>(NetError::BadBlock(e))
            },
            Err(e) => handled(n, MSG_BLOCKS, body, now, verified) == (n, Err::<Reply, _>(e.net())),
        },
{
}

/// Any other message ends the connection and changes nothing.
pub proof fn law_unknown_message_is_refused(
    n: NodeModel,
    kind: u8,
    body: Seq<u8>,
    now: u64,
    verified: Set<ClaimModel>,
)
    requires
        kind != MSG_PING,
        kind != MSG_GETBLOCKS,
        kind != MSG_GETADDR,
        kind != MSG_ADDR,
        kind != MSG_BLOCKS,
        kind != MSG_TX,
        kind != MSG_GETMEMPOOL,
    ensures
        handled(n, kind, body, now, verified) == (n, Err::<Reply, _>(NetError::UnknownMsg(kind))),
{
}

// ---------------------------------------------------------------------------
// gossip
// ---------------------------------------------------------------------------

/// What a round keeps from step to step: the peer, and the height that it
/// started from.
pub open spec fn same_round(g: SessionModel, next: SessionModel) -> bool {
    next.peer == g.peer && next.our_height == g.our_height
}

/// Whether messages relay a pool: first the transactions, all of them in order,
/// and then the request for the peer's.
pub open spec fn relays(n: NodeModel, out: Seq<Out>, from: int) -> bool {
    &&& out.len() == from + 2
    &&& out[from].0 == MSG_TX
    &&& out[from].1 == le_bytes(n.pool.len(), 4) + n.pool.map_values(tx_bytes()).flatten()
    &&& out[from + 1].0 == MSG_GETMEMPOOL
    &&& out[from + 1].1.len() == 0
}

/// A peer's handshake: the round notes the height, the book notes the peer, and
/// the node announces its own address and asks for the peer's book.
pub proof fn law_round_greets(
    g: SessionModel,
    n: NodeModel,
    kind: u8,
    body: Seq<u8>,
    now: u64,
    verified: Set<ClaimModel>,
)
    requires
        g.stage == GossipStage::Handshake,
    ensures
        match greeting(kind, body) {
            Ok(height) => {
                let (m, r) = gossip_step(g, n, kind, body, now, verified);
                &&& m == NodeModel { book: merged(n.book, g.peer, now), ..n }
                &&& r is Ok
                &&& same_round(g, (r->Ok_0).0)
                &&& (r->Ok_0).0.stage == GossipStage::Addrs
                &&& (r->Ok_0).0.round.their_height == height
                &&& (r->Ok_0).0.round.pulled == g.round.pulled
                &&& (r->Ok_0).0.round.pushed == g.round.pushed
                &&& (r->Ok_0).0.round.learned == g.round.learned
                &&& (r->Ok_0).0.round.txs == g.round.txs
                &&& (r->Ok_0).1.len() == 2
                &&& (r->Ok_0).1[0] == (MSG_ADDR, addrs_bytes(seq![n.listen]))
                &&& (r->Ok_0).1[1] == (MSG_GETADDR, Seq::<u8>::empty())
            },
            Err(e) => gossip_step(g, n, kind, body, now, verified) == (
                n,
                Err::<(SessionModel, Seq<Out>), _>(e),
            ),
        },
{
}

/// A peer's book: it is merged and what is new is counted. Then the round asks
/// for the blocks above its height if the peer is taller; otherwise it sends
/// the blocks above the peer's height, if it is the taller one and there are
/// any, and goes on to the pool.
#[verifier::rlimit(40)]
pub proof fn law_round_takes_addresses(
    g: SessionModel,
    n: NodeModel,
    body: Seq<u8>,
    list: Seq<Seq<char>>,
    now: u64,
    verified: Set<ClaimModel>,
)
    requires
        g.stage == GossipStage::Addrs,
        payload(addresses(), body) == Ok::<_, WireFault>(list),
        n.blocks.len() <= usize::MAX,
        list.len() <= usize::MAX,
        n.book.seen.dom().finite(),
    ensures
        ({
            let (m, r) = gossip_step(g, n, MSG_ADDR, body, now, verified);
            let above = n.blocks.filter(|b: BlockModel| b.height > g.round.their_height);
            &&& m == NodeModel { book: merged_all(n.book, n.listen, list, now), ..n }
            &&& r is Ok
            &&& same_round(g, (r->Ok_0).0)
            &&& (r->Ok_0).0.round.their_height == g.round.their_height
            &&& (r->Ok_0).0.round.pulled == g.round.pulled
            &&& (r->Ok_0).0.round.txs == g.round.txs
            &&& (r->Ok_0).0.round.learned == news_count(n.book, n.listen, list, now)
            &&& g.round.their_height > g.our_height ==> {
                &&& (r->Ok_0).0.stage == GossipStage::Blocks
                &&& (r->Ok_0).0.round.pushed == g.round.pushed
                &&& (r->Ok_0).1 == seq![(MSG_GETBLOCKS, le_bytes(g.our_height as nat, 8))]
            }
            &&& g.round.their_height <= g.our_height ==> (r->Ok_0).0.stage == GossipStage::Mempool
            &&& g.round.their_height == g.our_height ==> {
                &&& (r->Ok_0).0.round.pushed == 0
                &&& relays(n, (r->Ok_0).1, 0)
            }
            &&& g.round.their_height < g.our_height ==> {
                &&& (r->Ok_0).0.round.pushed == above.len()
                &&& above.len() == 0 ==> relays(n, (r->Ok_0).1, 0)
                &&& above.len() > 0 ==> relays(n, (r->Ok_0).1, 1) && (r->Ok_0).1[0] == (
                    MSG_BLOCKS,
                    blocks_bytes(above),
                )
            }
        }),
{
    law_blocks_above_are_all(n.blocks, g.round.their_height);
    lemma_above_len(n.blocks, g.round.their_height);
    law_list_layout(tx_bytes(), n.pool);
    law_news_is_what_the_book_grew(n.book, n.listen, list, now);
}

proof fn lemma_above_len(store: Seq<BlockModel>, height: u64)
    ensures
        blocks_above(store, height).len() <= store.len(),
    decreases store.len(),
{
    if store.len() > 0 {
        lemma_above_len(store.drop_last(), height);
    }
}

/// A peer's blocks: they are delivered and those that were applied are counted;
/// then the pool is relayed. A refused block ends the round.
#[verifier::rlimit(40)]
pub proof fn law_round_takes_blocks(
    g: SessionModel,
    n: NodeModel,
    body: Seq<u8>,
    list: Seq<BlockModel>,
    now: u64,
    verified: Set<ClaimModel>,
)
    requires
        g.stage == GossipStage::Blocks,
        payload(blocks(), body) == Ok::<_, WireFault>(list),
        list.len() <= usize::MAX,
    ensures
        ({
            let (m, r) = gossip_step(g, n, MSG_BLOCKS, body, now, verified);
            let (next, fault) = delivered(n, list, verified);
            &&& m == next
            &&& fault matches Some(e) ==> r == Err::<(SessionModel, Seq<Out>), _>(
                NetError::BadBlock(e),
            )
            &&& fault is None ==> {
                &&& r is Ok
                &&& same_round(g, (r->Ok_0).0)
                &&& (r->Ok_0).0.stage == GossipStage::Mempool
                &&& (r->Ok_0).0.round.their_height == g.round.their_height
                &&& (r->Ok_0).0.round.pushed == g.round.pushed
                &&& (r->Ok_0).0.round.learned == g.round.learned
                &&& (r->Ok_0).0.round.txs == g.round.txs
                &&& (r->Ok_0).0.round.pulled == applied_count(n, list, verified)
                &&& relays(next, (r->Ok_0).1, 0)
            }
        }),
{
    lemma_applied_len(n, list, verified);
    law_list_layout(tx_bytes(), delivered(n, list, verified).0.pool);
}

proof fn lemma_applied_len(n: NodeModel, list: Seq<BlockModel>, verified: Set<ClaimModel>)
    ensures
        applied_count(n, list, verified) <= list.len(),
    decreases list.len(),
{
    if list.len() > 0 && incoming_outcome(n, list[0], verified) is Ok {
        lemma_applied_len(
            incoming_outcome(n, list[0], verified)->Ok_0,
            list.drop_first(),
            verified,
        );
    }
}

/// A peer's pool: every transaction is offered to ours, those that are admitted
/// are counted, and the round is over.
#[verifier::rlimit(40)]
pub proof fn law_round_takes_pool(
    g: SessionModel,
    n: NodeModel,
    body: Seq<u8>,
    list: Seq<TxModel>,
    now: u64,
    verified: Set<ClaimModel>,
)
    requires
        g.stage == GossipStage::Mempool,
        payload(counted(tx(), 4096), body) == Ok::<_, WireFault>(list),
        list.len() <= usize::MAX,
    ensures
        ({
            let (m, r) = gossip_step(g, n, MSG_MEMPOOL, body, now, verified);
            &&& m == NodeModel { pool: offered(n.pool, list, n.chain.utxos, verified), ..n }
            &&& r is Ok
            &&& same_round(g, (r->Ok_0).0)
            &&& (r->Ok_0).0.stage == GossipStage::Finished
            &&& (r->Ok_0).0.round.their_height == g.round.their_height
            &&& (r->Ok_0).0.round.pushed == g.round.pushed
            &&& (r->Ok_0).0.round.pulled == g.round.pulled
            &&& (r->Ok_0).0.round.learned == g.round.learned
            &&& (r->Ok_0).0.round.txs == admissions(n.pool, list, n.chain.utxos, verified)
            &&& (r->Ok_0).1.len() == 0
        }),
{
    lemma_admissions_len(n.pool, list, n.chain.utxos, verified);
}

proof fn lemma_admissions_len(
    pool: Seq<TxModel>,
    txs: Seq<TxModel>,
    coins: Coins,
    verified: Set<ClaimModel>,
)
    ensures
        admissions(pool, txs, coins, verified) <= txs.len(),
    decreases txs.len(),
{
    if txs.len() > 0 {
        lemma_admissions_len(pool, txs.drop_last(), coins, verified);
    }
}

/// A message that a round does not wait for ends it and changes nothing.
pub proof fn law_round_refuses_other_messages(
    g: SessionModel,
    n: NodeModel,
    kind: u8,
    body: Seq<u8>,
    now: u64,
    verified: Set<ClaimModel>,
)
    requires
        g.stage == GossipStage::Handshake ==> kind != MSG_HANDSHAKE,
        g.stage == GossipStage::Addrs ==> kind != MSG_ADDR,
        g.stage == GossipStage::Blocks ==> kind != MSG_BLOCKS,
        g.stage == GossipStage::Mempool ==> kind != MSG_MEMPOOL,
    ensures
        gossip_step(g, n, kind, body, now, verified) == (
            n,
            Err::<(SessionModel, Seq<Out>), _>(NetError::UnknownMsg(kind)),
        ),
{
}

// ---------------------------------------------------------------------------
// replies and ends
// ---------------------------------------------------------------------------

/// The reply with the book lists every known address, once, and nothing else.
pub proof fn law_book_reply_lists_the_book(body: Seq<u8>, book: BookModel)
    requires
        lists_book(body, book),
        book_ok(book.seen),
    ensures
        payload(addresses(), body) is Ok,
        (payload(addresses(), body)->Ok_0).no_duplicates(),
        forall|a: Seq<char>| #[trigger]
            (payload(addresses(), body)->Ok_0).contains(a) <==> book.seen.contains_key(a),
{
    let list = choose|list: Seq<Seq<char>>|
        list.no_duplicates() && list.to_set() == book.seen.dom() && body == #[trigger] addrs_bytes(
            list,
        );
    list.unique_seq_to_set();
    assert forall|i: int| 0 <= i < list.len() implies encode_utf8(
        #[trigger] list[i],
    ).len() <= MAX_MSG by {
        assert(list.to_set().contains(list[i]));
        assert(book.seen.contains_key(list[i]));
        assert(sane(list[i]));
    }
    law_addrs_round_trip(list);
    law_payload_round_trip(addresses(), addrs_bytes(list), list);
    assert forall|a: Seq<char>| #[trigger] list.contains(a) <==> book.seen.contains_key(a) by {
        assert(list.to_set().contains(a) == book.seen.dom().contains(a));
    }
}

/// A message is a reply if it is of the right kind with the right payload, and
/// silence is no message.
pub proof fn law_reply_is_what_is_sent(m: Option<Message>, out: Out, book: BookModel)
    ensures
        is_reply(m, Reply::Silence, book) <==> m is None,
        is_reply(m, Reply::Exactly(out), book) <==> m is Some && (m->0).kind == out.0
            && (m->0).payload@ == out.1,
        is_reply(m, Reply::Book, book) ==> m is Some && (m->0).kind == MSG_ADDR && lists_book(
            (m->0).payload@,
            book,
        ),
{
}

/// A connection ends politely exactly if the stream ended or timed out.
pub proof fn law_polite_end(e: NetError)
    ensures
        polite_end(e) <==> e is Io && (e->Io_0).kind != IoKind::Other,
{
}

} // verus!

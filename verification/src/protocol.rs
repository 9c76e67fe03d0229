//! The conversation between nodes: how a connection is answered, and what one
//! gossip round or one pull says and does.
use vstd::prelude::*;

use crate::addrbook::{is_news, merged, AddrBook, BookModel};
use crate::block::{blocks_of, Block, BlockModel};
use crate::bytes::le_bytes;
use crate::chain::NodeError;
use crate::codec::{
    addresses, addrs_bytes, blocks, blocks_bytes, decode_addrs, decode_blocks, decode_handshake,
    decode_u64, encode_addrs, encode_blocks, encode_handshake, encode_u64, handshake,
    handshake_bytes, payload, texts_of, tx, tx_bytes, Message,
};
use crate::fork::law_tip_only_gets_taller;
use crate::mempool::{MAX_POOL, Mempool};
use crate::node::{admissions, incoming_outcome, offer_all, offered, NodeModel, NodeState};
use crate::sig::{ClaimModel, Verified};
use crate::text::{copy_text, same_text};
use crate::tx::Transaction;
use crate::wire::{
    counted, listed, word64, MAGIC, MSG_ADDR, MSG_BLOCKS, MSG_GETADDR, MSG_GETBLOCKS,
    MSG_GETMEMPOOL, MSG_HANDSHAKE, MSG_MEMPOOL, MSG_PING, MSG_PONG, MSG_TX, VERSION, IoKind,
    NetError,
};

verus! {

/// A message to send: its type and its payload.
pub type Out = (u8, Seq<u8>);

/// The contents of a list of messages.
pub open spec fn messages_of(s: Seq<Message>) -> Seq<Out> {
    Seq::new(s.len(), |i: int| (s[i].kind, s[i].payload@))
}

// ---------------------------------------------------------------------------
// pieces
// ---------------------------------------------------------------------------

/// The height that a peer's first message announces: it has to be a handshake
/// with our magic.
pub open spec fn greeting(kind: u8, body: Seq<u8>) -> Result<u64, NetError> {
    if kind != MSG_HANDSHAKE {
        Err(NetError::UnknownMsg(kind))
    } else {
        match payload(handshake(), body) {
            Ok((magic, (_, height))) => if magic != MAGIC {
                Err(NetError::BadMagic)
            } else {
                Ok(height)
            },
            Err(e) => Err(e.net()),
        }
    }
}

/// The height that a peer's first message announces.
pub fn check_handshake(m: &Message) -> (r: Result<u64, NetError>)
    ensures
        r == greeting(m.kind, m.payload@),
{
    if m.kind != MSG_HANDSHAKE {
        return Err(NetError::UnknownMsg(m.kind));
    }
    match decode_handshake(&m.payload) {
        Ok((magic, _, height)) => {
            if magic != MAGIC {
                Err(NetError::BadMagic)
            } else {
                Ok(height)
            }
        },
        Err(e) => Err(e),
    }
}

/// The handshake that a node sends.
fn our_handshake(height: u64) -> (r: Message)
    ensures
        r.kind == MSG_HANDSHAKE,
        r.payload@ == handshake_bytes(MAGIC, VERSION, height),
{
    Message { kind: MSG_HANDSHAKE, payload: encode_handshake(MAGIC, VERSION, height) }
}

/// The stored blocks above a height, in the order of the store.
pub open spec fn blocks_above(store: Seq<BlockModel>, height: u64) -> Seq<BlockModel>
    decreases store.len(),
{
    if store.len() == 0 {
        Seq::empty()
    } else {
        let front = blocks_above(store.drop_last(), height);
        if store.last().height > height {
            front.push(store.last())
        } else {
            front
        }
    }
}

fn collect_above(store: &Vec<Block>, height: u64) -> (r: Vec<Block>)
    ensures
        blocks_of(r@) == blocks_above(blocks_of(store@), height),
{
    let ghost all = blocks_of(store@);
    let mut out: Vec<Block> = Vec::new();
    let mut i: usize = 0;
    assert(all.take(0) =~= Seq::empty());
    assert(blocks_of(out@) =~= Seq::empty());
    while i < store.len()
        invariant
            i <= store@.len(),
            all == blocks_of(store@),
            blocks_of(out@) == blocks_above(all.take(i as int), height),
        decreases store@.len() - i,
    {
        proof {
            assert(all.take(i + 1).drop_last() =~= all.take(i as int));
            assert(all.take(i + 1).last() == all[i as int]);
        }
        if store[i].height > height {
            let ghost was = blocks_of(out@);
            out.push(store[i].clone());
            assert(blocks_of(out@) =~= was.push(all[i as int]));
        }
        i = i + 1;
    }
    assert(all.take(i as int) =~= all);
    out
}

/// The book after addresses were merged; a node never takes up its own.
pub open spec fn merged_all(
    book: BookModel,
    listen: Seq<char>,
    addrs: Seq<Seq<char>>,
    now: u64,
) -> BookModel
    decreases addrs.len(),
{
    if addrs.len() == 0 {
        book
    } else {
        let before = merged_all(book, listen, addrs.drop_last(), now);
        if addrs.last() == listen {
            before
        } else {
            merged(before, addrs.last(), now)
        }
    }
}

/// The number of addresses that were new when each was merged in turn.
pub open spec fn news_count(
    book: BookModel,
    listen: Seq<char>,
    addrs: Seq<Seq<char>>,
    now: u64,
) -> nat
    decreases addrs.len(),
{
    if addrs.len() == 0 {
        0
    } else {
        let before = merged_all(book, listen, addrs.drop_last(), now);
        news_count(book, listen, addrs.drop_last(), now) + if addrs.last() != listen && is_news(
            before,
            addrs.last(),
        ) {
            1nat
        } else {
            0nat
        }
    }
}

fn merge_all(book: &mut AddrBook, listen: &str, addrs: &Vec<String>, now: u64) -> (r: usize)
    ensures
        final(book)@ == merged_all(old(book)@, listen@, texts_of(addrs@), now),
        r == news_count(old(book)@, listen@, texts_of(addrs@), now),
{
    let ghost before = book@;
    let ghost all = texts_of(addrs@);
    let mut count: usize = 0;
    let mut i: usize = 0;
    assert(all.take(0) =~= Seq::empty());
    while i < addrs.len()
        invariant
            i <= addrs@.len(),
            count <= i,
            all == texts_of(addrs@),
            book@ == merged_all(before, listen@, all.take(i as int), now),
            count == news_count(before, listen@, all.take(i as int), now),
        decreases addrs@.len() - i,
    {
        proof {
            assert(all.take(i + 1).drop_last() =~= all.take(i as int));
            assert(all.take(i + 1).last() == all[i as int]);
        }
        if !same_text(&addrs[i], listen) {
            if book.merge(&addrs[i], now) {
                count = count + 1;
            }
        }
        i = i + 1;
    }
    assert(all.take(i as int) =~= all);
    count
}

/// What delivering blocks comes to: the node after the blocks up to the first
/// that is refused, and why that one is.
pub open spec fn delivered(
    n: NodeModel,
    list: Seq<BlockModel>,
    verified: Set<ClaimModel>,
) -> (NodeModel, Option<NodeError>)
    decreases list.len(),
{
    if list.len() == 0 {
        (n, None)
    } else {
        match incoming_outcome(n, list[0], verified) {
            Ok(next) => delivered(next, list.drop_first(), verified),
            Err(e) => (n, Some(e)),
        }
    }
}

/// How many blocks of a list are applied: those that change the chain state,
/// each taken by the node as the ones before left it, up to the first that is
/// refused. A block that is only stashed, or dropped, is not applied.
pub open spec fn applied_count(
    n: NodeModel,
    list: Seq<BlockModel>,
    verified: Set<ClaimModel>,
) -> nat
    decreases list.len(),
{
    if list.len() == 0 {
        0
    } else {
        match incoming_outcome(n, list[0], verified) {
            Ok(next) => {
                let rest = applied_count(next, list.drop_first(), verified);
                if next.chain == n.chain {
                    rest
                } else {
                    rest + 1
                }
            },
            Err(_) => 0,
        }
    }
}

/// Validates and applies blocks in order, up to the first that is refused, and
/// counts those that were applied.
fn deliver(state: &mut NodeState, list: &Vec<Block>, verified: &Verified) -> (r: Result<
    usize,
    NetError,
>)
    ensures
        final(state)@ == delivered(old(state)@, blocks_of(list@), verified@).0,
        match delivered(old(state)@, blocks_of(list@), verified@).1 {
            Some(e) => r == Err::<usize, NetError>(NetError::BadBlock(e)),
            None => r matches Ok(c) && c == applied_count(
                old(state)@,
                blocks_of(list@),
                verified@,
            ),
        },
{
    let ghost start = state@;
    let ghost all = blocks_of(list@);
    let mut count: usize = 0;
    let mut i: usize = 0;
    assert(all.skip(0) =~= all);
    while i < list.len()
        invariant
            i <= list@.len(),
            count <= i,
            start == old(state)@,
            all == blocks_of(list@),
            delivered(start, all, verified@) == delivered(state@, all.skip(i as int), verified@),
            applied_count(start, all, verified@) == count + applied_count(
                state@,
                all.skip(i as int),
                verified@,
            ),
        decreases list@.len() - i,
    {
        let height: u64 = state.best_height();
        let ghost n = state@;
        proof {
            assert(all.skip(i as int)[0] == all[i as int]);
            assert(all.skip(i as int).drop_first() =~= all.skip(i + 1));
        }
        match state.apply_incoming(&list[i], verified) {
            Ok(_) => {},
            Err(e) => {
                return Err(e);
            },
        }
        proof {
            law_tip_only_gets_taller(n, all[i as int], verified@);
        }
        if state.best_height() != height {
            count = count + 1;
        }
        i = i + 1;
    }
    assert(all.skip(i as int) =~= Seq::empty());
    Ok(count)
}

// ---------------------------------------------------------------------------
// answering a connection
// ---------------------------------------------------------------------------

/// What a node answers to a message.
pub enum Reply {
    /// Nothing.
    Silence,
    /// The message.
    Exactly(Out),
    /// An ADDR message with every known address, once, in any order.
    Book,
}

/// How a node takes a message: the node after it, and the reply or the error
/// on which the connection is dropped.
///
/// A BLOCKS message is taken block by block: a refused block ends it, and the
/// blocks before it stay. A transaction that is not admitted is passed over.
pub open spec fn handled(
    n: NodeModel,
    kind: u8,
    body: Seq<u8>,
    now: u64,
    verified: Set<ClaimModel>,
) -> (NodeModel, Result<Reply, NetError>) {
    if kind == MSG_PING {
        match payload(word64(), body) {
            Ok(v) => (n, Ok(Reply::Exactly((MSG_PONG, le_bytes(v as nat, 8))))),
            Err(e) => (n, Err(e.net())),
        }
    } else if kind == MSG_GETBLOCKS {
        match payload(word64(), body) {
            Ok(from) => (
                n,
                Ok(Reply::Exactly((MSG_BLOCKS, blocks_bytes(blocks_above(n.blocks, from))))),
            ),
            Err(e) => (n, Err(e.net())),
        }
    } else if kind == MSG_GETADDR {
        (n, Ok(Reply::Book))
    } else if kind == MSG_ADDR {
        match payload(addresses(), body) {
            Ok(list) => (
                NodeModel { book: merged_all(n.book, n.listen, list, now), ..n },
                Ok(Reply::Silence),
            ),
            Err(e) => (n, Err(e.net())),
        }
    } else if kind == MSG_BLOCKS {
        match payload(blocks(), body) {
            Ok(list) => {
                let (next, fault) = delivered(n, list, verified);
                (
                    next,
                    match fault {
                        Some(e) => Err(NetError::BadBlock(e)),
                        None => Ok(Reply::Silence),
                    },
                )
            },
            Err(e) => (n, Err(e.net())),
        }
    } else if kind == MSG_TX {
        match payload(counted(tx(), MAX_POOL as nat), body) {
            Ok(list) => (
                NodeModel { pool: offered(n.pool, list, n.chain.utxos, verified), ..n },
                Ok(Reply::Silence),
            ),
            Err(e) => (n, Err(e.net())),
        }
    } else if kind == MSG_GETMEMPOOL {
        (n, Ok(Reply::Exactly((MSG_MEMPOOL, listed(tx_bytes(), n.pool)))))
    } else {
        (n, Err(NetError::UnknownMsg(kind)))
    }
}

/// Whether an ADDR payload lists a book: every address once.
pub open spec fn lists_book(body: Seq<u8>, book: BookModel) -> bool {
    exists|list: Seq<Seq<char>>|
        list.no_duplicates() && list.to_set() == book.seen.dom() && body == #[trigger] addrs_bytes(
            list,
        )
}

/// Whether a message is the reply.
pub open spec fn is_reply(m: Option<Message>, reply: Reply, book: BookModel) -> bool {
    match reply {
        Reply::Silence => m is None,
        Reply::Exactly((kind, body)) => m matches Some(x) && x.kind == kind && x.payload@ == body,
        Reply::Book => m matches Some(x) && x.kind == MSG_ADDR && lists_book(x.payload@, book),
    }
}

impl NodeState {
    /// Answers the first message of a connection: a handshake for a handshake.
    pub fn greet(&self, m: &Message) -> (r: Result<Message, NetError>)
        ensures
            match greeting(m.kind, m.payload@) {
                Ok(_) => r matches Ok(x) && x.kind == MSG_HANDSHAKE && x.payload@
                    == handshake_bytes(MAGIC, VERSION, self@.chain.tip_height),
                Err(e) => r == Err::<Message, NetError>(e),
            },
    {
        match check_handshake(m) {
            Ok(_) => Ok(our_handshake(self.best_height())),
            Err(e) => Err(e),
        }
    }

    /// Takes one message of a greeted connection. On an error the connection is
    /// to be dropped.
    #[verifier::rlimit(30)]
    pub fn on_message(&mut self, m: &Message, now: u64, verified: &Verified) -> (r: Result<
        Option<Message>,
        NetError,
    >)
        ensures
            final(self)@ == handled(old(self)@, m.kind, m.payload@, now, verified@).0,
            match handled(old(self)@, m.kind, m.payload@, now, verified@).1 {
                Ok(reply) => r matches Ok(x) && is_reply(x, reply, old(self)@.book),
                Err(e) => r == Err::<Option<Message>, NetError>(e),
            },
    {
        if m.kind == MSG_PING {
            self.on_ping(m)
        } else if m.kind == MSG_GETBLOCKS {
            self.on_getblocks(m)
        } else if m.kind == MSG_GETADDR {
            Ok(Some(self.on_getaddr()))
        } else if m.kind == MSG_ADDR {
            self.on_addr(m, now)
        } else if m.kind == MSG_BLOCKS {
            self.on_blocks(m, verified)
        } else if m.kind == MSG_TX {
            self.on_tx(m, verified)
        } else if m.kind == MSG_GETMEMPOOL {
            let txs: Vec<&Transaction> = self.pool.txs();
            Ok(Some(Message { kind: MSG_MEMPOOL, payload: Mempool::encode_all(&txs) }))
        } else {
            Err(NetError::UnknownMsg(m.kind))
        }
    }

    fn on_ping(&self, m: &Message) -> (r: Result<Option<Message>, NetError>)
        ensures
            match payload(word64(), m.payload@) {
                Ok(v) => r matches Ok(Some(x)) && x.kind == MSG_PONG && x.payload@ == le_bytes(
                    v as nat,
                    8,
                ),
                Err(e) => r == Err::<Option<Message>, NetError>(e.net()),
            },
    {
        match decode_u64(&m.payload) {
            Ok(v) => Ok(Some(Message { kind: MSG_PONG, payload: encode_u64(v) })),
            Err(e) => Err(e),
        }
    }

    fn on_getblocks(&self, m: &Message) -> (r: Result<Option<Message>, NetError>)
        ensures
            match payload(word64(), m.payload@) {
                Ok(from) => r matches Ok(Some(x)) && x.kind == MSG_BLOCKS && x.payload@
                    == blocks_bytes(blocks_above(self@.blocks, from)),
                Err(e) => r == Err::<Option<Message>, NetError>(e.net()),
            },
    {
        match decode_u64(&m.payload) {
            Ok(from) => {
                let reply: Vec<Block> = collect_above(&self.blocks, from);
                Ok(Some(Message { kind: MSG_BLOCKS, payload: encode_blocks(&reply) }))
            },
            Err(e) => Err(e),
        }
    }

    fn on_getaddr(&self) -> (r: Message)
        ensures
            r.kind == MSG_ADDR,
            lists_book(r.payload@, self@.book),
    {
        let addrs: Vec<String> = self.book.addrs();
        let body: Vec<u8> = encode_addrs(&addrs);
        assert(body@ == addrs_bytes(texts_of(addrs@)));
        Message { kind: MSG_ADDR, payload: body }
    }

    fn on_addr(&mut self, m: &Message, now: u64) -> (r: Result<Option<Message>, NetError>)
        ensures
            match payload(addresses(), m.payload@) {
                Ok(list) => (r matches Ok(x) && x is None) && final(self)@ == (NodeModel {
                    book: merged_all(old(self)@.book, old(self)@.listen, list, now),
                    ..old(self)@
                }),
                Err(e) => r == Err::<Option<Message>, NetError>(e.net()) && final(self)@ == old(
                    self,
                )@,
            },
    {
        match decode_addrs(&m.payload) {
            Ok(addrs) => {
                merge_all(&mut self.book, &self.listen, &addrs, now);
                Ok(None)
            },
            Err(e) => Err(e),
        }
    }

    fn on_blocks(&mut self, m: &Message, verified: &Verified) -> (r: Result<
        Option<Message>,
        NetError,
    >)
        ensures
            match payload(blocks(), m.payload@) {
                Ok(list) => {
                    let (next, fault) = delivered(old(self)@, list, verified@);
                    final(self)@ == next && match fault {
                        Some(e) => r == Err::<Option<Message>, NetError>(NetError::BadBlock(e)),
                        None => r matches Ok(x) && x is None,
                    }
                },
                Err(e) => r == Err::<Option<Message>, NetError>(e.net()) && final(self)@ == old(
                    self,
                )@,
            },
    {
        match decode_blocks(&m.payload) {
            Ok(list) => match deliver(self, &list, verified) {
                Ok(_) => Ok(None),
                Err(e) => Err(e),
            },
            Err(e) => Err(e),
        }
    }

    fn on_tx(&mut self, m: &Message, verified: &Verified) -> (r: Result<Option<Message>, NetError>)
        ensures
            match payload(counted(tx(), MAX_POOL as nat), m.payload@) {
                Ok(list) => (r matches Ok(x) && x is None) && final(self)@ == (NodeModel {
                    pool: offered(old(self)@.pool, list, old(self)@.chain.utxos, verified@),
                    ..old(self)@
                }),
                Err(e) => r == Err::<Option<Message>, NetError>(e.net()) && final(self)@ == old(
                    self,
                )@,
            },
    {
        match Mempool::decode_all(&m.payload) {
            Ok(txs) => {
                offer_all(&mut self.pool, &txs, &self.chain, verified);
                Ok(None)
            },
            Err(e) => Err(e),
        }
    }
}

/// Whether a failed read ends a connection politely: the peer hung up or fell
/// silent.
pub open spec fn polite_end(e: NetError) -> bool {
    e matches NetError::Io(io) && (io.kind == IoKind::UnexpectedEof || io.kind == IoKind::WouldBlock
        || io.kind == IoKind::TimedOut)
}

/// What a connection comes to when a read on it fails.
pub fn read_failed(e: NetError) -> (r: Result<(), NetError>)
    ensures
        r == (if polite_end(e) {
            Ok::<(), NetError>(())
        } else {
            Err::<(), NetError>(e)
        }),
{
    let polite: bool = match &e {
        NetError::Io(io) => match io.kind {
            IoKind::UnexpectedEof => true,
            IoKind::WouldBlock => true,
            IoKind::TimedOut => true,
            IoKind::Other => false,
        },
        _ => false,
    };
    if polite {
        Ok(())
    } else {
        Err(e)
    }
}

// ---------------------------------------------------------------------------
// gossip
// ---------------------------------------------------------------------------

/// What one gossip round achieved.
#[derive(Debug, Clone, Copy, PartialEq, Eq, Structural)]
pub struct GossipRound {
    pub their_height: u64,
    /// Blocks we pulled and applied (peer was taller).
    pub pulled: usize,
    /// Blocks we pushed (we were taller).
    pub pushed: usize,
    /// New addresses learned from the peer's book.
    pub learned: usize,
    /// New transactions admitted into our pool from the peer.
    pub txs: usize,
}

impl Default for GossipRound {
    fn default() -> (r: Self)
        ensures
            r == (GossipRound { their_height: 0, pulled: 0, pushed: 0, learned: 0, txs: 0 }),
    {
        GossipRound { their_height: 0, pulled: 0, pushed: 0, learned: 0, txs: 0 }
    }
}

/// Which message a gossip round waits for.
#[derive(Debug, Clone, Copy, PartialEq, Eq, Structural)]
pub enum GossipStage {
    Handshake,
    Addrs,
    Blocks,
    Mempool,
    /// The round is over.
    Finished,
}

/// One round against a peer, from our side: handshake → self-announce →
/// GETADDR → pull or push, depending on heights → mempool relay.
#[derive(Debug)]
pub struct GossipSession {
    pub peer: String,
    pub our_height: u64,
    pub stage: GossipStage,
    pub round: GossipRound,
}

/// The contents of a [`GossipSession`].
pub struct SessionModel {
    pub peer: Seq<char>,
    pub our_height: u64,
    pub stage: GossipStage,
    pub round: GossipRound,
}

impl View for GossipSession {
    type V = SessionModel;

    open spec fn view(&self) -> SessionModel {
        SessionModel {
            peer: self.peer@,
            our_height: self.our_height,
            stage: self.stage,
            round: self.round,
        }
    }
}

/// The messages that relay the pool: ours, and the request for theirs.
pub open spec fn relay(n: NodeModel) -> Seq<Out> {
    seq![(MSG_TX, listed(tx_bytes(), n.pool)), (MSG_GETMEMPOOL, Seq::empty())]
}

/// What a round does once the peer's book is in: ask for blocks if the peer is
/// taller, push ours if we are, and in the latter two cases go on to the pool.
pub open spec fn after_addrs(g: SessionModel, n: NodeModel) -> (SessionModel, Seq<Out>) {
    if g.round.their_height > g.our_height {
        (
            SessionModel { stage: GossipStage::Blocks, ..g },
            seq![(MSG_GETBLOCKS, le_bytes(g.our_height as nat, 8))],
        )
    } else {
        let push = if g.our_height > g.round.their_height {
            blocks_above(n.blocks, g.round.their_height)
        } else {
            Seq::empty()
        };
        (
            SessionModel {
                stage: GossipStage::Mempool,
                round: GossipRound { pushed: push.len() as usize, ..g.round },
                ..g
            },
            if push.len() > 0 {
                seq![(MSG_BLOCKS, blocks_bytes(push))] + relay(n)
            } else {
                relay(n)
            },
        )
    }
}

/// What a step of a round comes to: the node after it, and the round after it
/// with the messages to send next, or the error that ends it.
pub type Step = (NodeModel, Result<(SessionModel, Seq<Out>), NetError>);

/// The peer's handshake: note its height, bump it in the book, announce
/// ourselves, and ask for the peer's book.
pub open spec fn step_handshake(
    g: SessionModel,
    n: NodeModel,
    kind: u8,
    body: Seq<u8>,
    now: u64,
) -> Step {
    match greeting(kind, body) {
        Ok(height) => (
            NodeModel { book: merged(n.book, g.peer, now), ..n },
            Ok(
                (
                    SessionModel {
                        stage: GossipStage::Addrs,
                        round: GossipRound { their_height: height, ..g.round },
                        ..g
                    },
                    seq![(MSG_ADDR, addrs_bytes(seq![n.listen])), (MSG_GETADDR, Seq::empty())],
                ),
            ),
        ),
        Err(e) => (n, Err(e)),
    }
}

/// The peer's book: merge it, and go on to blocks or to the pool.
pub open spec fn step_addrs(
    g: SessionModel,
    n: NodeModel,
    kind: u8,
    body: Seq<u8>,
    now: u64,
) -> Step {
    if kind != MSG_ADDR {
        (n, Err(NetError::UnknownMsg(kind)))
    } else {
        match payload(addresses(), body) {
            Ok(list) => {
                let next = NodeModel { book: merged_all(n.book, n.listen, list, now), ..n };
                let learned = news_count(n.book, n.listen, list, now) as usize;
                (
                    next,
                    Ok(
                        after_addrs(
                            SessionModel { round: GossipRound { learned, ..g.round }, ..g },
                            next,
                        ),
                    ),
                )
            },
            Err(e) => (n, Err(e.net())),
        }
    }
}

/// The peer's blocks: validate and apply each, then relay the pool.
pub open spec fn step_blocks(
    g: SessionModel,
    n: NodeModel,
    kind: u8,
    body: Seq<u8>,
    verified: Set<ClaimModel>,
) -> Step {
    if kind != MSG_BLOCKS {
        (n, Err(NetError::UnknownMsg(kind)))
    } else {
        match payload(blocks(), body) {
            Ok(list) => {
                let (next, fault) = delivered(n, list, verified);
                (
                    next,
                    match fault {
                        Some(e) => Err(NetError::BadBlock(e)),
                        None => Ok(
                            (
                                SessionModel {
                                    stage: GossipStage::Mempool,
                                    round: GossipRound {
                                        pulled: applied_count(n, list, verified) as usize,
                                        ..g.round
                                    },
                                    ..g
                                },
                                relay(next),
                            ),
                        ),
                    },
                )
            },
            Err(e) => (n, Err(e.net())),
        }
    }
}

/// The peer's pool: offer each transaction to ours.
pub open spec fn step_mempool(
    g: SessionModel,
    n: NodeModel,
    kind: u8,
    body: Seq<u8>,
    verified: Set<ClaimModel>,
) -> Step {
    if kind != MSG_MEMPOOL {
        (n, Err(NetError::UnknownMsg(kind)))
    } else {
        match payload(counted(tx(), MAX_POOL as nat), body) {
            Ok(list) => (
                NodeModel { pool: offered(n.pool, list, n.chain.utxos, verified), ..n },
                Ok(
                    (
                        SessionModel {
                            stage: GossipStage::Finished,
                            round: GossipRound {
                                txs: admissions(n.pool, list, n.chain.utxos, verified) as usize,
                                ..g.round
                            },
                            ..g
                        },
                        Seq::empty(),
                    ),
                ),
            ),
            Err(e) => (n, Err(e.net())),
        }
    }
}

/// How a round takes a message.
///
/// Blocks come before transactions: a spend can only be admitted once its
/// prevout exists.
pub open spec fn gossip_step(
    g: SessionModel,
    n: NodeModel,
    kind: u8,
    body: Seq<u8>,
    now: u64,
    verified: Set<ClaimModel>,
) -> Step {
    match g.stage {
        GossipStage::Handshake => step_handshake(g, n, kind, body, now),
        GossipStage::Addrs => step_addrs(g, n, kind, body, now),
        GossipStage::Blocks => step_blocks(g, n, kind, body, verified),
        GossipStage::Mempool => step_mempool(g, n, kind, body, verified),
        GossipStage::Finished => (n, Err(NetError::UnknownMsg(kind))),
    }
}

/// The messages that relay the pool.
fn push_relay(out: &mut Vec<Message>, state: &NodeState)
    ensures
        messages_of(final(out)@) == messages_of(old(out)@) + relay(state@),
{
    let ghost was = messages_of(out@);
    let txs: Vec<&Transaction> = state.pool.txs();
    out.push(Message { kind: MSG_TX, payload: Mempool::encode_all(&txs) });
    out.push(Message { kind: MSG_GETMEMPOOL, payload: Vec::new() });
    proof {
        let now = messages_of(out@);
        assert(now[was.len() as int + 1].1 =~= Seq::<u8>::empty());
        assert(now =~= was + relay(state@));
    }
}

impl GossipSession {
    /// Starts a round against `peer`, with the handshake to send first.
    pub fn start(state: &NodeState, peer: &str) -> (r: (GossipSession, Message))
        ensures
            r.0@ == (SessionModel {
                peer: peer@,
                our_height: state@.chain.tip_height,
                stage: GossipStage::Handshake,
                round: GossipRound { their_height: 0, pulled: 0, pushed: 0, learned: 0, txs: 0 },
            }),
            r.1.kind == MSG_HANDSHAKE,
            r.1.payload@ == handshake_bytes(MAGIC, VERSION, state@.chain.tip_height),
    {
        let our_height: u64 = state.best_height();
        (
            GossipSession {
                peer: copy_text(peer),
                our_height,
                stage: GossipStage::Handshake,
                round: GossipRound::default(),
            },
            our_handshake(our_height),
        )
    }

    /// Takes the next message of the peer, and says what to send next.
    #[verifier::rlimit(30)]
    pub fn step(
        &mut self,
        state: &mut NodeState,
        m: &Message,
        now: u64,
        verified: &Verified,
    ) -> (r: Result<Vec<Message>, NetError>)
        ensures
            final(state)@ == gossip_step(
                old(self)@,
                old(state)@,
                m.kind,
                m.payload@,
                now,
                verified@,
            ).0,
            match gossip_step(old(self)@, old(state)@, m.kind, m.payload@, now, verified@).1 {
                Ok((g, out)) => (r matches Ok(v) && messages_of(v@) == out) && final(self)@ == g,
                Err(e) => r == Err::<Vec<Message>, NetError>(e) && final(self)@ == old(self)@,
            },
    {
        match self.stage {
            GossipStage::Handshake => self.on_handshake(state, m, now),
            GossipStage::Addrs => self.on_addrs(state, m, now),
            GossipStage::Blocks => self.on_blocks(state, m, verified),
            GossipStage::Mempool => self.on_mempool(state, m, verified),
            GossipStage::Finished => Err(NetError::UnknownMsg(m.kind)),
        }
    }

    fn on_handshake(&mut self, state: &mut NodeState, m: &Message, now: u64) -> (r: Result<
        Vec<Message>,
        NetError,
    >)
        ensures
            final(state)@ == step_handshake(old(self)@, old(state)@, m.kind, m.payload@, now).0,
            match step_handshake(old(self)@, old(state)@, m.kind, m.payload@, now).1 {
                Ok((g, out)) => (r matches Ok(v) && messages_of(v@) == out) && final(self)@ == g,
                Err(e) => r == Err::<Vec<Message>, NetError>(e) && final(self)@ == old(self)@,
            },
    {
        let height: u64 = match check_handshake(m) {
            Ok(h) => h,
            Err(e) => {
                return Err(e);
            },
        };
        state.book.merge(&self.peer, now);
        let mut announce: Vec<String> = Vec::new();
        announce.push(copy_text(&state.listen));
        assert(texts_of(announce@) =~= seq![state.listen@]);
        let mut out: Vec<Message> = Vec::new();
        out.push(Message { kind: MSG_ADDR, payload: encode_addrs(&announce) });
        out.push(Message { kind: MSG_GETADDR, payload: Vec::new() });
        proof {
            let v = messages_of(out@);
            assert(v[1].1 =~= Seq::<u8>::empty());
            assert(v =~= seq![
                (MSG_ADDR, addrs_bytes(seq![state.listen@])),
                (MSG_GETADDR, Seq::empty()),
            ]);
        }
        self.round.their_height = height;
        self.stage = GossipStage::Addrs;
        Ok(out)
    }

    fn on_addrs(&mut self, state: &mut NodeState, m: &Message, now: u64) -> (r: Result<
        Vec<Message>,
        NetError,
    >)
        ensures
            final(state)@ == step_addrs(old(self)@, old(state)@, m.kind, m.payload@, now).0,
            match step_addrs(old(self)@, old(state)@, m.kind, m.payload@, now).1 {
                Ok((g, out)) => (r matches Ok(v) && messages_of(v@) == out) && final(self)@ == g,
                Err(e) => r == Err::<Vec<Message>, NetError>(e) && final(self)@ == old(self)@,
            },
    {
        if m.kind != MSG_ADDR {
            return Err(NetError::UnknownMsg(m.kind));
        }
        match decode_addrs(&m.payload) {
            Ok(addrs) => {
                self.round.learned = merge_all(&mut state.book, &state.listen, &addrs, now);
                Ok(self.sync_blocks(state))
            },
            Err(e) => Err(e),
        }
    }

    /// Asks for blocks or pushes ours, depending on heights.
    fn sync_blocks(&mut self, state: &NodeState) -> (r: Vec<Message>)
        ensures
            final(self)@ == after_addrs(old(self)@, state@).0,
            messages_of(r@) == after_addrs(old(self)@, state@).1,
    {
        let mut out: Vec<Message> = Vec::new();
        if self.round.their_height > self.our_height {
            out.push(Message { kind: MSG_GETBLOCKS, payload: encode_u64(self.our_height) });
            self.stage = GossipStage::Blocks;
            assert(messages_of(out@) =~= seq![
                (MSG_GETBLOCKS, le_bytes(self.our_height as nat, 8)),
            ]);
            return out;
        }
        let push: Vec<Block> = if self.our_height > self.round.their_height {
            collect_above(&state.blocks, self.round.their_height)
        } else {
            Vec::new()
        };
        let ghost want = if self.our_height > self.round.their_height {
            blocks_above(state@.blocks, self.round.their_height)
        } else {
            Seq::empty()
        };
        assert(blocks_of(push@) =~= want);
        if push.len() > 0 {
            out.push(Message { kind: MSG_BLOCKS, payload: encode_blocks(&push) });
            assert(messages_of(out@) =~= seq![(MSG_BLOCKS, blocks_bytes(want))]);
        } else {
            assert(messages_of(out@) =~= Seq::empty());
            assert(Seq::empty() + relay(state@) =~= relay(state@));
        }
        self.round.pushed = push.len();
        self.stage = GossipStage::Mempool;
        push_relay(&mut out, state);
        out
    }

    fn on_blocks(&mut self, state: &mut NodeState, m: &Message, verified: &Verified) -> (r: Result<
        Vec<Message>,
        NetError,
    >)
        ensures
            final(state)@ == step_blocks(old(self)@, old(state)@, m.kind, m.payload@, verified@).0,
            match step_blocks(old(self)@, old(state)@, m.kind, m.payload@, verified@).1 {
                Ok((g, out)) => (r matches Ok(v) && messages_of(v@) == out) && final(self)@ == g,
                Err(e) => r == Err::<Vec<Message>, NetError>(e) && final(self)@ == old(self)@,
            },
    {
        if m.kind != MSG_BLOCKS {
            return Err(NetError::UnknownMsg(m.kind));
        }
        let list: Vec<Block> = match decode_blocks(&m.payload) {
            Ok(v) => v,
            Err(e) => {
                return Err(e);
            },
        };
        let pulled: usize = match deliver(state, &list, verified) {
            Ok(count) => count,
            Err(e) => {
                return Err(e);
            },
        };
        let mut out: Vec<Message> = Vec::new();
        assert(messages_of(out@) =~= Seq::empty());
        self.round.pulled = pulled;
        self.stage = GossipStage::Mempool;
        push_relay(&mut out, state);
        assert(messages_of(out@) =~= relay(state@));
        Ok(out)
    }

    fn on_mempool(&mut self, state: &mut NodeState, m: &Message, verified: &Verified) -> (r: Result<
        Vec<Message>,
        NetError,
    >)
        ensures
            final(state)@ == step_mempool(old(self)@, old(state)@, m.kind, m.payload@, verified@).0,
            match step_mempool(old(self)@, old(state)@, m.kind, m.payload@, verified@).1 {
                Ok((g, out)) => (r matches Ok(v) && messages_of(v@) == out) && final(self)@ == g,
                Err(e) => r == Err::<Vec<Message>, NetError>(e) && final(self)@ == old(self)@,
            },
    {
        if m.kind != MSG_MEMPOOL {
            return Err(NetError::UnknownMsg(m.kind));
        }
        match Mempool::decode_all(&m.payload) {
            Ok(txs) => {
                self.round.txs = offer_all(&mut state.pool, &txs, &state.chain, verified);
                self.stage = GossipStage::Finished;
                let out: Vec<Message> = Vec::new();
                assert(messages_of(out@) =~= Seq::empty());
                Ok(out)
            },
            Err(e) => Err(e),
        }
    }
}

// ---------------------------------------------------------------------------
// one-shot pull
// ---------------------------------------------------------------------------

/// The handshake that a pull of the blocks above `from_height` starts with.
pub fn pull_start(from_height: u64) -> (r: Message)
    ensures
        r.kind == MSG_HANDSHAKE,
        r.payload@ == handshake_bytes(MAGIC, VERSION, from_height),
{
    our_handshake(from_height)
}

/// Takes the peer's handshake: its best height, and the request for blocks if
/// the peer has any above `from_height`.
pub fn pull_greeted(from_height: u64, m: &Message) -> (r: Result<(u64, Option<Message>), NetError>)
    ensures
        match greeting(m.kind, m.payload@) {
            Ok(height) => r matches Ok((h, req)) && h == height && if height <= from_height {
                req is None
            } else {
                req matches Some(x) && x.kind == MSG_GETBLOCKS && x.payload@ == le_bytes(
                    from_height as nat,
                    8,
                )
            },
            Err(e) => r == Err::<(u64, Option<Message>), NetError>(e),
        },
{
    match check_handshake(m) {
        Ok(height) => {
            if height <= from_height {
                Ok((height, None))
            } else {
                Ok(
                    (
                        height,
                        Some(Message { kind: MSG_GETBLOCKS, payload: encode_u64(from_height) }),
                    ),
                )
            }
        },
        Err(e) => Err(e),
    }
}

/// Takes the peer's blocks.
pub fn pull_received(m: &Message) -> (r: Result<Vec<Block>, NetError>)
    ensures
        if m.kind != MSG_BLOCKS {
            r == Err::<Vec<Block>, NetError>(NetError::UnknownMsg(m.kind))
        } else {
            match payload(blocks(), m.payload@) {
                Ok(v) => r matches Ok(l) && blocks_of(l@) == v,
                Err(e) => r == Err::<Vec<Block>, NetError>(e.net()),
            }
        },
{
    if m.kind != MSG_BLOCKS {
        return Err(NetError::UnknownMsg(m.kind));
    }
    decode_blocks(&m.payload)
}

} // verus!

//! The book of peer addresses, and the text that keeps it over a restart.
use vstd::prelude::*;
use vstd::utf8::encode_utf8;

use crate::assoc::{
    assoc_map, has_key, keys_distinct, lemma_assoc_at, lemma_assoc_contains, lemma_assoc_len,
    lemma_assoc_push, lemma_assoc_update,
};
use crate::codec::texts_of;
use crate::text::{
    char_lists, chars_of, copy_text, dec_chars, is_white, lemma_dec_round_trip, lemma_line_opens,
    line_cut, lines_of, number_in, parse_number, push_decimal, same_text, split_lines, strip_cr,
    text_of, white,
};
use crate::wire::MAX_BOOK;

verus! {

/// An address and when it was last seen (UNIX secs).
#[derive(Debug)]
pub struct Peer {
    pub addr: String,
    pub seen: u64,
}

/// The addresses of a list with when each was last seen.
pub open spec fn peer_pairs(s: Seq<Peer>) -> Seq<(Seq<char>, u64)> {
    Seq::new(s.len(), |i: int| (s[i].addr@, s[i].seen))
}

/// Whether a text is fit to be an address: not empty, at most 64 bytes, without
/// white space, with a colon.
pub open spec fn sane(addr: Seq<char>) -> bool {
    &&& addr.len() > 0
    &&& encode_utf8(addr).len() <= 64
    &&& forall|i: int| 0 <= i < addr.len() ==> !is_white(#[trigger] addr[i])
    &&& addr.contains(':')
}

/// What holds of every book: it is bounded, and every address in it is sane.
pub open spec fn book_ok(seen: Map<Seq<char>, u64>) -> bool {
    &&& seen.dom().finite()
    &&& seen.dom().len() <= MAX_BOOK
    &&& forall|a: Seq<char>| seen.contains_key(a) ==> #[trigger] sane(a)
}

// ---------------------------------------------------------------------------
// the stored text
// ---------------------------------------------------------------------------

/// Where the first space of a line stands, or its length where there is none.
pub open spec fn first_space(line: Seq<char>) -> int
    decreases line.len(),
{
    if line.len() == 0 || line[0] == ' ' {
        0
    } else {
        1 + first_space(line.drop_first())
    }
}

/// What a line of the stored text says: "last_seen addr". Anything else is
/// junk.
pub open spec fn stored_peer(line: Seq<char>) -> Option<(Seq<char>, u64)> {
    let n = first_space(line);
    if n >= line.len() {
        None
    } else {
        let addr = line.skip(n + 1);
        match number_in(line.take(n), u64::MAX as nat) {
            Some(v) => if sane(addr) {
                Some((addr, v as u64))
            } else {
                None
            },
            None => None,
        }
    }
}

/// The book after one more line: junk is skipped, and a full book takes
/// nothing more.
pub open spec fn load_line(seen: Map<Seq<char>, u64>, line: Seq<char>) -> Map<Seq<char>, u64> {
    match stored_peer(line) {
        Some((addr, v)) => if seen.dom().len() < MAX_BOOK {
            seen.insert(addr, v)
        } else {
            seen
        },
        None => seen,
    }
}

/// The book that lines of the stored text spell out.
pub open spec fn load_lines(lines: Seq<Seq<char>>) -> Map<Seq<char>, u64>
    decreases lines.len(),
{
    if lines.len() == 0 {
        Map::empty()
    } else {
        load_line(load_lines(lines.drop_last()), lines.last())
    }
}

/// A line of the stored text.
pub open spec fn peer_line(p: (Seq<char>, u64)) -> Seq<char> {
    dec_chars(p.1 as nat) + seq![' '] + p.0
}

/// The stored text: one "last_seen addr" per line.
pub open spec fn stored_text(list: Seq<(Seq<char>, u64)>) -> Seq<char>
    decreases list.len(),
{
    if list.len() == 0 {
        Seq::empty()
    } else {
        stored_text(list.drop_last()) + peer_line(list.last()) + seq!['\n']
    }
}

/// Whether a text lists exactly the addresses of the book, each once.
pub open spec fn stores(text: Seq<char>, seen: Map<Seq<char>, u64>) -> bool {
    exists|list: Seq<(Seq<char>, u64)>|
        keys_distinct(list) && assoc_map(list) == seen && text == #[trigger] stored_text(list)
}

// ---------------------------------------------------------------------------
// the book
// ---------------------------------------------------------------------------

/// Peer address book: addr → last-seen (UNIX secs). Self-announcement plus
/// GETADDR gossip makes a one-seed node discover the rest of the mesh.
///
/// A book built `with_persistence` survives restarts as plain text, one
/// `last_seen addr` per line; a corrupt or missing text loads as an empty book.
#[derive(Debug)]
pub struct AddrBook {
    list: Vec<Peer>,
    persistent: bool,
    dirty: bool,
}

/// The contents of an [`AddrBook`].
pub struct BookModel {
    pub seen: Map<Seq<char>, u64>,
    /// Whether the book is kept as text.
    pub persistent: bool,
    /// Whether it changed since it was last written.
    pub dirty: bool,
}

/// Whether merging an address adds it: it is sane, not known yet, and the book
/// has room.
pub open spec fn is_news(book: BookModel, addr: Seq<char>) -> bool {
    sane(addr) && !book.seen.contains_key(addr) && book.seen.dom().len() < MAX_BOOK
}

/// The book with an address merged: a new one is added, a known one gets its
/// last-seen bumped, and anything else changes nothing.
pub open spec fn merged(book: BookModel, addr: Seq<char>, now: u64) -> BookModel {
    if is_news(book, addr) || (sane(addr) && book.seen.contains_key(addr)) {
        BookModel {
            seen: book.seen.insert(addr, now),
            persistent: book.persistent,
            dirty: true,
        }
    } else {
        book
    }
}

impl View for AddrBook {
    type V = BookModel;

    closed spec fn view(&self) -> BookModel {
        BookModel {
            seen: assoc_map(peer_pairs(self.list@)),
            persistent: self.persistent,
            dirty: self.dirty,
        }
    }
}

spec fn list_ok(list: Seq<Peer>) -> bool {
    &&& keys_distinct(peer_pairs(list))
    &&& list.len() <= MAX_BOOK
    &&& forall|i: int| 0 <= i < list.len() ==> sane((#[trigger] list[i]).addr@)
}

proof fn lemma_list_ok(list: Seq<Peer>)
    requires
        list_ok(list),
    ensures
        book_ok(assoc_map(peer_pairs(list))),
        assoc_map(peer_pairs(list)).dom().len() == list.len(),
{
    let p = peer_pairs(list);
    lemma_assoc_len(p);
    assert forall|a: Seq<char>| assoc_map(p).contains_key(a) implies #[trigger] sane(a) by {
        lemma_assoc_contains(p, a);
        let i = choose|i: int| 0 <= i < p.len() && (#[trigger] p[i]).0 == a;
        assert(sane(list[i].addr@));
    }
}

/// Where the address stands in the list.
fn peer_position(list: &Vec<Peer>, addr: &str) -> (r: Option<usize>)
    ensures
        match r {
            Some(i) => i < list@.len() && list@[i as int].addr@ == addr@,
            None => !has_key(peer_pairs(list@), addr@),
        },
{
    let mut i: usize = 0;
    while i < list.len()
        invariant
            i <= list@.len(),
            forall|j: int| 0 <= j < i ==> (#[trigger] list@[j]).addr@ != addr@,
        decreases list@.len() - i,
    {
        if same_text(&list[i].addr, addr) {
            return Some(i);
        }
        i = i + 1;
    }
    proof {
        let p = peer_pairs(list@);
        if has_key(p, addr@) {
            let j = choose|j: int| 0 <= j < p.len() && (#[trigger] p[j]).0 == addr@;
            assert(list@[j].addr@ == addr@);
        }
    }
    None
}

/// Puts an address into a list that has room for it or has it already.
fn put_peer(list: &mut Vec<Peer>, addr: &str, seen: u64)
    requires
        list_ok(old(list)@),
        sane(addr@),
        old(list)@.len() < MAX_BOOK || has_key(peer_pairs(old(list)@), addr@),
    ensures
        list_ok(final(list)@),
        assoc_map(peer_pairs(final(list)@)) == assoc_map(peer_pairs(old(list)@)).insert(
            addr@,
            seen,
        ),
{
    let ghost was = list@;
    proof {
        lemma_assoc_contains(peer_pairs(was), addr@);
    }
    match peer_position(list, addr) {
        Some(i) => {
            let name: String = copy_text(addr);
            list[i] = Peer { addr: name, seen };
            proof {
                lemma_assoc_update(peer_pairs(was), i as int, seen);
                assert(peer_pairs(list@) =~= peer_pairs(was).update(i as int, (addr@, seen)));
                assert forall|j: int| 0 <= j < list@.len() implies sane(
                    (#[trigger] list@[j]).addr@,
                ) by {
                    assert(sane(was[j].addr@));
                }
            }
        },
        None => {
            let name: String = copy_text(addr);
            list.push(Peer { addr: name, seen });
            proof {
                lemma_assoc_push(peer_pairs(was), addr@, seen);
                assert(peer_pairs(list@) =~= peer_pairs(was).push((addr@, seen)));
                assert forall|j: int| 0 <= j < list@.len() implies sane(
                    (#[trigger] list@[j]).addr@,
                ) by {
                    if j < was.len() {
                        assert(sane(was[j].addr@));
                    }
                }
            }
        },
    }
}

/// Reads one line of the stored text.
fn read_peer_line(line: &Vec<char>) -> (r: Option<Peer>)
    ensures
        match stored_peer(line@) {
            Some((addr, v)) => r matches Some(p) && p.addr@ == addr && p.seen == v,
            None => r is None,
        },
{
    let mut n: usize = 0;
    let mut head: Vec<char> = Vec::new();
    assert(line@.skip(0) =~= line@);
    while n < line.len() && line[n] != ' '
        invariant
            n <= line@.len(),
            head@ == line@.take(n as int),
            first_space(line@) == n + first_space(line@.skip(n as int)),
        decreases line@.len() - n,
    {
        assert(line@.skip(n as int).drop_first() =~= line@.skip(n + 1));
        assert(line@.skip(n as int)[0] == line@[n as int]);
        head.push(line[n]);
        n = n + 1;
        assert(head@ =~= line@.take(n as int));
    }
    if n >= line.len() {
        return None;
    }
    assert(line@.skip(n as int)[0] == ' ');
    let mut rest: Vec<char> = Vec::new();
    let mut k: usize = n + 1;
    assert(rest@ =~= line@.subrange(n + 1, n + 1));
    while k < line.len()
        invariant
            n < k <= line@.len(),
            rest@ == line@.subrange(n + 1, k as int),
        decreases line@.len() - k,
    {
        rest.push(line[k]);
        k = k + 1;
        assert(rest@ =~= line@.subrange(n + 1, k as int));
    }
    assert(rest@ =~= line@.skip(n + 1));
    match parse_number(&head, u64::MAX) {
        Some(seen) => {
            let addr: String = text_of(&rest);
            if AddrBook::addr_sane(&addr) {
                Some(Peer { addr, seen })
            } else {
                None
            }
        },
        None => None,
    }
}

impl Default for AddrBook {
    fn default() -> (r: Self)
        ensures
            r@ == (BookModel { seen: Map::empty(), persistent: false, dirty: false }),
    {
        AddrBook::new()
    }
}

impl AddrBook {
    #[verifier::type_invariant]
    spec fn inv(self) -> bool {
        list_ok(self.list@)
    }

    /// An empty book that is not kept as text.
    pub fn new() -> (r: Self)
        ensures
            r@ == (BookModel { seen: Map::empty(), persistent: false, dirty: false }),
    {
        let r = AddrBook { list: Vec::new(), persistent: false, dirty: false };
        assert(peer_pairs(r.list@) =~= Seq::empty());
        r
    }

    /// A book that is kept as text, loaded from the text that was stored, if
    /// there is one.
    pub fn with_persistence(stored: Option<&str>) -> (r: Self)
        ensures
            r@ == (BookModel {
                seen: match stored {
                    Some(text) => load_lines(lines_of(text@)),
                    None => Map::empty(),
                },
                persistent: true,
                dirty: false,
            }),
            book_ok(r@.seen),
    {
        let mut list: Vec<Peer> = Vec::new();
        assert(peer_pairs(list@) =~= Seq::empty());
        match stored {
            Some(text) => {
                let chars: Vec<char> = chars_of(text);
                let lines: Vec<Vec<char>> = split_lines(&chars);
                let ghost all = char_lists(lines@);
                let mut i: usize = 0;
                assert(all.take(0) =~= Seq::empty());
                while i < lines.len()
                    invariant
                        i <= lines@.len(),
                        all == char_lists(lines@),
                        list_ok(list@),
                        assoc_map(peer_pairs(list@)) == load_lines(all.take(i as int)),
                    decreases lines@.len() - i,
                {
                    proof {
                        lemma_list_ok(list@);
                        assert(all.take(i + 1).drop_last() =~= all.take(i as int));
                        assert(all.take(i + 1).last() == lines@[i as int]@);
                    }
                    match read_peer_line(&lines[i]) {
                        Some(p) => {
                            if list.len() < MAX_BOOK {
                                put_peer(&mut list, &p.addr, p.seen);
                            }
                        },
                        None => {},
                    }
                    i = i + 1;
                }
                assert(all.take(i as int) =~= all);
            },
            None => {},
        }
        proof {
            lemma_list_ok(list@);
        }
        AddrBook { list, persistent: true, dirty: false }
    }

    /// Whether a text is fit to be an address.
    pub fn addr_sane(addr: &str) -> (r: bool)
        ensures
            r == sane(addr@),
    {
        let chars: Vec<char> = chars_of(addr);
        if chars.len() == 0 || addr.as_bytes().len() > 64 {
            return false;
        }
        let mut colon: bool = false;
        let mut i: usize = 0;
        while i < chars.len()
            invariant
                i <= chars@.len(),
                chars@ == addr@,
                colon == exists|j: int| 0 <= j < i && #[trigger] addr@[j] == ':',
                forall|j: int| 0 <= j < i ==> !is_white(#[trigger] addr@[j]),
            decreases chars@.len() - i,
        {
            if white(chars[i]) {
                assert(is_white(addr@[i as int]));
                return false;
            }
            if chars[i] == ':' {
                assert(addr@[i as int] == ':');
                colon = true;
            }
            i = i + 1;
        }
        proof {
            if addr@.contains(':') {
                let j = choose|j: int| 0 <= j < addr@.len() && addr@[j] == ':';
                assert(addr@[j] == ':');
            }
        }
        colon
    }

    /// Merge one addr. Returns true if it was new. Rejects junk and, when the
    /// book is full, unknown addrs (known ones just get their last-seen bumped).
    pub fn merge(&mut self, addr: &str, now: u64) -> (r: bool)
        ensures
            r == is_news(old(self)@, addr@),
            final(self)@ == merged(old(self)@, addr@, now),
            book_ok(final(self)@.seen),
    {
        proof {
            use_type_invariant(&*self);
            lemma_list_ok(self.list@);
            lemma_assoc_contains(peer_pairs(self.list@), addr@);
        }
        if !Self::addr_sane(addr) {
            return false;
        }
        let known: bool = peer_position(&self.list, addr).is_some();
        proof {
            if known {
                let i = choose|i: int| 0 <= i < self.list@.len() && self.list@[i].addr@ == addr@;
                assert(peer_pairs(self.list@)[i].0 == addr@);
            }
        }
        if !known && self.list.len() >= MAX_BOOK {
            return false;
        }
        let mut list: Vec<Peer> = Vec::new();
        std::mem::swap(&mut list, &mut self.list);
        put_peer(&mut list, addr, now);
        proof {
            lemma_list_ok(list@);
        }
        self.list = list;
        self.dirty = true;
        !known
    }

    /// The text to write so that the book survives a restart; none where the
    /// book is not kept as text or has not changed.
    pub fn flush(&self) -> (r: Option<String>)
        ensures
            match r {
                Some(text) => self@.persistent && self@.dirty && stores(text@, self@.seen),
                None => !self@.persistent || !self@.dirty,
            },
            book_ok(self@.seen),
    {
        proof {
            use_type_invariant(self);
            lemma_list_ok(self.list@);
        }
        if !self.persistent || !self.dirty {
            return None;
        }
        let ghost all = peer_pairs(self.list@);
        let mut body: String = String::new();
        let mut i: usize = 0;
        assert(all.take(0) =~= Seq::empty());
        assert(body@ =~= Seq::empty());
        while i < self.list.len()
            invariant
                i <= self.list@.len(),
                all == peer_pairs(self.list@),
                body@ == stored_text(all.take(i as int)),
            decreases self.list@.len() - i,
        {
            let ghost was = body@;
            push_decimal(&mut body, self.list[i].seen);
            body.push(' ');
            body.append(&self.list[i].addr);
            body.push('\n');
            i = i + 1;
            proof {
                assert(all.take(i as int).drop_last() =~= all.take(i - 1));
                assert(body@ =~= stored_text(all.take(i as int)));
            }
        }
        assert(all.take(i as int) =~= all);
        Some(body)
    }

    /// Notes that the text was written.
    pub fn flushed(&mut self)
        ensures
            final(self)@ == (BookModel { dirty: false, ..old(self)@ }),
    {
        proof {
            use_type_invariant(&*self);
        }
        self.dirty = false;
    }

    /// The addresses, each once.
    pub fn addrs(&self) -> (r: Vec<String>)
        ensures
            texts_of(r@).no_duplicates(),
            texts_of(r@).to_set() == self@.seen.dom(),
            r@.len() <= MAX_BOOK,
            book_ok(self@.seen),
    {
        proof {
            use_type_invariant(self);
            lemma_list_ok(self.list@);
        }
        let ghost all = peer_pairs(self.list@);
        let mut out: Vec<String> = Vec::new();
        let mut i: usize = 0;
        while i < self.list.len()
            invariant
                i <= self.list@.len(),
                out@.len() == i,
                all == peer_pairs(self.list@),
                forall|j: int| 0 <= j < i ==> (#[trigger] out@[j])@ == all[j].0,
            decreases self.list@.len() - i,
        {
            out.push(copy_text(&self.list[i].addr));
            i = i + 1;
        }
        proof {
            let t = texts_of(out@);
            assert forall|a: int, b: int| 0 <= a < t.len() && 0 <= b < t.len() && a != b implies t[a]
                != t[b] by {
                assert(out@[a]@ == all[a].0 && out@[b]@ == all[b].0);
                if a < b {
                    assert(all[a].0 != all[b].0);
                } else {
                    assert(all[b].0 != all[a].0);
                }
            }
            assert forall|x: Seq<char>| t.to_set().contains(x) == self@.seen.dom().contains(x) by {
                lemma_assoc_contains(all, x);
                if t.contains(x) {
                    let j = choose|j: int| 0 <= j < t.len() && t[j] == x;
                    assert(out@[j]@ == all[j].0);
                }
                if has_key(all, x) {
                    let j = choose|j: int| 0 <= j < all.len() && (#[trigger] all[j]).0 == x;
                    assert(out@[j]@ == all[j].0);
                    assert(t[j] == x);
                }
                assert(self@.seen.contains_key(x) == has_key(all, x));
            }
            assert(t.to_set() =~= self@.seen.dom());
        }
        out
    }

    /// When an address was last seen, if it is known.
    pub fn last_seen(&self, addr: &str) -> (r: Option<u64>)
        ensures
            match r {
                Some(t) => self@.seen.contains_key(addr@) && self@.seen[addr@] == t,
                None => !self@.seen.contains_key(addr@),
            },
    {
        proof {
            use_type_invariant(self);
            lemma_assoc_contains(peer_pairs(self.list@), addr@);
        }
        match peer_position(&self.list, addr) {
            Some(i) => {
                proof {
                    lemma_assoc_at(peer_pairs(self.list@), i as int);
                }
                Some(self.list[i].seen)
            },
            None => None,
        }
    }

    /// The number of addresses.
    pub fn len(&self) -> (r: usize)
        ensures
            r == self@.seen.dom().len(),
            book_ok(self@.seen),
    {
        proof {
            use_type_invariant(self);
            lemma_list_ok(self.list@);
        }
        self.list.len()
    }

    /// Whether no address is known.
    pub fn is_empty(&self) -> (r: bool)
        ensures
            r == (self@.seen.dom().len() == 0),
    {
        proof {
            use_type_invariant(self);
            lemma_list_ok(self.list@);
        }
        self.list.len() == 0
    }
}

// ---------------------------------------------------------------------------
// what is stored loads back
// ---------------------------------------------------------------------------

proof fn lemma_peer_line(p: (Seq<char>, u64))
    requires
        sane(p.0),
    ensures
        stored_peer(peer_line(p)) == Some(p),
        forall|i: int| 0 <= i < peer_line(p).len() ==> #[trigger] peer_line(p)[i] != '\n',
        strip_cr(peer_line(p)) == peer_line(p),
{
    let d = dec_chars(p.1 as nat);
    let line = peer_line(p);
    lemma_dec_round_trip(p.1 as nat);
    assert forall|i: int| 0 <= i < line.len() implies #[trigger] line[i] != '\n' by {
        if i < d.len() {
            assert(line[i] == d[i]);
            assert(!is_white(d[i]));
        } else if i > d.len() {
            assert(line[i] == p.0[i - d.len() - 1]);
            assert(!is_white(p.0[i - d.len() - 1]));
        }
    }
    assert(line.last() == p.0[p.0.len() - 1]);
    assert(!is_white(p.0[p.0.len() - 1]));
    lemma_first_space(d, seq![' '] + p.0);
    assert(line =~= d + (seq![' '] + p.0));
    assert(line.take(d.len() as int) =~= d);
    assert(line.skip(d.len() as int + 1) =~= p.0);
}

proof fn lemma_first_space(d: Seq<char>, rest: Seq<char>)
    requires
        forall|i: int| 0 <= i < d.len() ==> !is_white(#[trigger] d[i]),
        rest.len() > 0,
        rest[0] == ' ',
    ensures
        first_space(d + rest) == d.len(),
    decreases d.len(),
{
    let s = d + rest;
    if d.len() == 0 {
        assert(s =~= rest);
    } else {
        let tail = d.drop_first();
        assert forall|i: int| 0 <= i < tail.len() implies !is_white(#[trigger] tail[i]) by {
            assert(tail[i] == d[i + 1]);
        }
        lemma_first_space(tail, rest);
        assert(s.drop_first() =~= tail + rest);
        assert(!is_white(d[0]));
        assert(s[0] == d[0]);
    }
}

proof fn lemma_stored_lines(list: Seq<(Seq<char>, u64)>)
    requires
        forall|i: int| 0 <= i < list.len() ==> sane((#[trigger] list[i]).0),
    ensures
        line_cut(stored_text(list)) == (
            Seq::new(list.len(), |i: int| peer_line(list[i])),
            Seq::<char>::empty(),
        ),
    decreases list.len(),
{
    let want = Seq::new(list.len(), |i: int| peer_line(list[i]));
    if list.len() == 0 {
        assert(want =~= Seq::empty());
    } else {
        let front = list.drop_last();
        let a = stored_text(front);
        let line = peer_line(list.last());
        let s = stored_text(list);
        assert forall|i: int| 0 <= i < front.len() implies sane((#[trigger] front[i]).0) by {
            assert(front[i] == list[i]);
        }
        lemma_stored_lines(front);
        assert(sane(list[list.len() - 1].0));
        lemma_peer_line(list.last());
        lemma_line_opens(a, line);
        assert(s.drop_last() =~= a + line);
        assert(s.last() == '\n');
        assert(line_cut(s).0 =~= want);
    }
}

proof fn lemma_load_stored(list: Seq<(Seq<char>, u64)>, n: int)
    requires
        keys_distinct(list),
        0 <= n <= list.len() <= MAX_BOOK,
        forall|i: int| 0 <= i < list.len() ==> sane((#[trigger] list[i]).0),
    ensures
        load_lines(Seq::new(list.len(), |i: int| peer_line(list[i])).take(n)) == assoc_map(
            list.take(n),
        ),
    decreases n,
{
    let lines = Seq::new(list.len(), |i: int| peer_line(list[i]));
    if n > 0 {
        lemma_load_stored(list, n - 1);
        assert(lines.take(n).drop_last() =~= lines.take(n - 1));
        assert(list.take(n).drop_last() =~= list.take(n - 1));
        assert(list.take(n).last() == list[n - 1]);
        assert(lines.take(n).last() == peer_line(list[n - 1]));
        lemma_peer_line(list[n - 1]);
        assert(keys_distinct(list.take(n - 1)));
        lemma_assoc_len(list.take(n - 1));
    } else {
        assert(lines.take(0) =~= Seq::empty());
        assert(list.take(0) =~= Seq::empty());
    }
}

/// The book survives a restart: what a book stores loads back as the same
/// addresses with the same times.
pub proof fn law_book_survives_restart(text: Seq<char>, seen: Map<Seq<char>, u64>)
    requires
        book_ok(seen),
        stores(text, seen),
    ensures
        load_lines(lines_of(text)) == seen,
{
    let list = choose|list: Seq<(Seq<char>, u64)>|
        keys_distinct(list) && assoc_map(list) == seen && text == #[trigger] stored_text(list);
    lemma_assoc_len(list);
    assert forall|i: int| 0 <= i < list.len() implies sane((#[trigger] list[i]).0) by {
        lemma_assoc_at(list, i);
    }
    lemma_stored_lines(list);
    let lines = Seq::new(list.len(), |i: int| peer_line(list[i]));
    assert(lines_of(text) == lines);
    lemma_load_stored(list, list.len() as int);
    assert(lines.take(list.len() as int) =~= lines);
    assert(list.take(list.len() as int) =~= list);
}

} // verus!

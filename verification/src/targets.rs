//! Which peers a gossip tick dials: the seeds first, then the addresses learned
//! along the way, each once and each group in byte order, up to a bound.
use vstd::prelude::*;
use vstd::utf8::encode_utf8;

use crate::assoc::lemma_push_set;
use crate::codec::texts_of;
use crate::text::{copy_text, same_text};

verus! {

/// Bound on the work per tick: at most this many peers are dialled.
pub const MAX_TARGETS: usize = 8;

/// The order of byte strings: at the first difference the smaller byte comes
/// first, and a prefix comes before what it is a prefix of.
pub open spec fn bytes_before(a: Seq<u8>, b: Seq<u8>) -> bool
    decreases a.len(),
{
    if b.len() == 0 {
        false
    } else if a.len() == 0 {
        true
    } else if a[0] != b[0] {
        a[0] < b[0]
    } else {
        bytes_before(a.drop_first(), b.drop_first())
    }
}

/// The order of texts: that of their bytes.
pub open spec fn text_before(a: Seq<char>, b: Seq<char>) -> bool {
    bytes_before(encode_utf8(a), encode_utf8(b))
}

proof fn lemma_bytes_order(a: Seq<u8>, b: Seq<u8>)
    ensures
        !bytes_before(a, a),
        a != b ==> bytes_before(a, b) || bytes_before(b, a),
        !(bytes_before(a, b) && bytes_before(b, a)),
    decreases a.len(),
{
    if a.len() > 0 {
        if b.len() > 0 {
            lemma_bytes_order(a.drop_first(), b.drop_first());
            if a != b && a[0] == b[0] && a.drop_first() == b.drop_first() {
                assert(a =~= seq![a[0]] + a.drop_first());
                assert(b =~= seq![b[0]] + b.drop_first());
            }
        } else {
            lemma_bytes_order(a.drop_first(), Seq::empty());
        }
    } else if b.len() == 0 {
        assert(a =~= b);
    }
}

proof fn lemma_bytes_transitive(a: Seq<u8>, b: Seq<u8>, c: Seq<u8>)
    requires
        bytes_before(a, b),
        bytes_before(b, c),
    ensures
        bytes_before(a, c),
    decreases a.len(),
{
    if a.len() > 0 && a[0] == b[0] && b[0] == c[0] {
        lemma_bytes_transitive(a.drop_first(), b.drop_first(), c.drop_first());
    }
}

proof fn lemma_text_order(a: Seq<char>, b: Seq<char>)
    ensures
        !text_before(a, a),
        a != b ==> text_before(a, b) || text_before(b, a),
        !(text_before(a, b) && text_before(b, a)),
{
    lemma_bytes_order(encode_utf8(a), encode_utf8(b));
    vstd::utf8::encode_utf8_decode_utf8(a);
    vstd::utf8::encode_utf8_decode_utf8(b);
}

fn is_before(a: &str, b: &str) -> (r: bool)
    ensures
        r == text_before(a@, b@),
{
    let x: &[u8] = a.as_bytes();
    let y: &[u8] = b.as_bytes();
    let mut i: usize = 0;
    assert(x@.skip(0) =~= x@);
    assert(y@.skip(0) =~= y@);
    while i < x.len() && i < y.len()
        invariant
            i <= x@.len(),
            i <= y@.len(),
            x@ == encode_utf8(a@),
            y@ == encode_utf8(b@),
            bytes_before(x@, y@) == bytes_before(x@.skip(i as int), y@.skip(i as int)),
        decreases x@.len() - i,
    {
        proof {
            assert(x@.skip(i as int)[0] == x@[i as int]);
            assert(y@.skip(i as int)[0] == y@[i as int]);
            assert(x@.skip(i as int).drop_first() =~= x@.skip(i + 1));
            assert(y@.skip(i as int).drop_first() =~= y@.skip(i + 1));
        }
        if x[i] != y[i] {
            return x[i] < y[i];
        }
        i = i + 1;
    }
    i < y.len()
}

/// Whether a list is in order without repeats.
pub open spec fn ascending(s: Seq<Seq<char>>) -> bool {
    forall|i: int, j: int| 0 <= i < j < s.len() ==> text_before(#[trigger] s[i], #[trigger] s[j])
}

/// Puts a text into an ascending list, once.
fn put(list: &mut Vec<String>, t: &str)
    requires
        ascending(texts_of(old(list)@)),
    ensures
        ascending(texts_of(final(list)@)),
        texts_of(final(list)@).to_set() == texts_of(old(list)@).to_set().insert(t@),
{
    let ghost was = texts_of(list@);
    let mut i: usize = 0;
    while i < list.len() && is_before(&list[i], t)
        invariant
            i <= list@.len(),
            was == texts_of(list@),
            forall|j: int| 0 <= j < i ==> text_before(#[trigger] was[j], t@),
        decreases list@.len() - i,
    {
        assert(text_before(was[i as int], t@));
        i = i + 1;
    }
    if i < list.len() && same_text(&list[i], t) {
        assert(was[i as int] == t@);
        assert(was.to_set().insert(t@) =~= was.to_set());
        return;
    }
    let ghost at = i as int;
    list.insert(i, copy_text(t));
    proof {
        let now = texts_of(list@);
        assert(now =~= was.insert(at, t@));
        if at < was.len() {
            lemma_text_order(was[at], t@);
        }
        assert forall|a: int, b: int| 0 <= a < b < now.len() implies text_before(
            #[trigger] now[a],
            #[trigger] now[b],
        ) by {
            let p = if a < at {
                a
            } else {
                a - 1
            };
            let q = if b < at {
                b
            } else {
                b - 1
            };
            if a != at && b != at {
                assert(now[a] == was[p] && now[b] == was[q]);
            } else if b == at {
                assert(now[a] == was[a]);
            } else {
                assert(now[b] == was[b - 1]);
                if b - 1 > at {
                    assert(text_before(was[at], was[b - 1]));
                    lemma_bytes_transitive(
                        encode_utf8(t@),
                        encode_utf8(was[at]),
                        encode_utf8(was[b - 1]),
                    );
                }
            }
        }
        assert forall|x: Seq<char>| now.to_set().contains(x) == was.to_set().insert(t@).contains(
            x,
        ) by {
            if now.contains(x) {
                let a = choose|a: int| 0 <= a < now.len() && now[a] == x;
                if a < at {
                    assert(was[a] == x);
                } else if a > at {
                    assert(was[a - 1] == x);
                }
            }
            if was.contains(x) {
                let a = choose|a: int| 0 <= a < was.len() && was[a] == x;
                if a < at {
                    assert(now[a] == x);
                } else {
                    assert(now[a + 1] == x);
                }
            }
            if x == t@ {
                assert(now[at] == x);
            }
        }
        assert(now.to_set() =~= was.to_set().insert(t@));
    }
}

/// Whether a list holds a text.
fn holds(list: &Vec<String>, t: &str) -> (r: bool)
    ensures
        r == texts_of(list@).contains(t@),
{
    let ghost all = texts_of(list@);
    let mut i: usize = 0;
    while i < list.len()
        invariant
            i <= list@.len(),
            all == texts_of(list@),
            forall|j: int| 0 <= j < i ==> #[trigger] all[j] != t@,
        decreases list@.len() - i,
    {
        if same_text(&list[i], t) {
            assert(all[i as int] == t@);
            return true;
        }
        i = i + 1;
    }
    false
}

/// The texts that are not in `without`, in order, each once.
fn in_order(texts: &Vec<String>, without: &Vec<String>) -> (r: Vec<String>)
    ensures
        ascending(texts_of(r@)),
        texts_of(r@).to_set() == texts_of(texts@).to_set().difference(texts_of(without@).to_set()),
{
    let ghost all = texts_of(texts@);
    let ghost out = texts_of(without@).to_set();
    let mut list: Vec<String> = Vec::new();
    let mut i: usize = 0;
    assert(texts_of(list@) =~= Seq::empty());
    assert(texts_of(list@).to_set() =~= all.take(0).to_set().difference(out));
    while i < texts.len()
        invariant
            i <= texts@.len(),
            all == texts_of(texts@),
            out == texts_of(without@).to_set(),
            ascending(texts_of(list@)),
            texts_of(list@).to_set() == all.take(i as int).to_set().difference(out),
        decreases texts@.len() - i,
    {
        if !holds(without, &texts[i]) {
            put(&mut list, &texts[i]);
        }
        i = i + 1;
        proof {
            let x = all[i - 1];
            let front = all.take(i - 1);
            let next = all.take(i as int);
            assert(next =~= front.push(x));
            lemma_push_set(front, x);
            assert(texts_of(list@).to_set() =~= next.to_set().difference(out));
        }
    }
    assert(all.take(i as int) =~= all);
    list
}

/// Whether a list holds the texts of one set and then those of another, each
/// in order, up to `max` of them.
pub open spec fn first_of(
    s: Seq<Seq<char>>,
    first: Set<Seq<char>>,
    second: Set<Seq<char>>,
    max: nat,
) -> bool {
    exists|a: Seq<Seq<char>>, b: Seq<Seq<char>>| #[trigger]
        ascending(a) && #[trigger] ascending(b) && a.to_set() == first && b.to_set() == second && s
            == cut(a + b, max)
}

/// The first `max` items of a list.
pub open spec fn cut(s: Seq<Seq<char>>, max: nat) -> Seq<Seq<char>> {
    if s.len() > max {
        s.take(max as int)
    } else {
        s
    }
}

/// The peers of one tick: the seeds in byte order, then the learned addresses
/// that are no seed in byte order, each once, at most `MAX_TARGETS` of them.
pub fn gossip_targets(seeds: &Vec<String>, addrs: &Vec<String>) -> (r: Vec<String>)
    ensures
        first_of(
            texts_of(r@),
            texts_of(seeds@).to_set(),
            texts_of(addrs@).to_set().difference(texts_of(seeds@).to_set()),
            MAX_TARGETS as nat,
        ),
{
    let none: Vec<String> = Vec::new();
    let mut list: Vec<String> = in_order(seeds, &none);
    let mut rest: Vec<String> = in_order(addrs, seeds);
    let ghost a = texts_of(list@);
    let ghost b = texts_of(rest@);
    assert(texts_of(none@) =~= Seq::empty());
    assert(a.to_set() =~= texts_of(seeds@).to_set());
    list.append(&mut rest);
    assert(texts_of(list@) =~= a + b);
    if list.len() > MAX_TARGETS {
        list.truncate(MAX_TARGETS);
    }
    proof {
        assert(texts_of(list@) =~= cut(a + b, MAX_TARGETS as nat));
        assert(ascending(a) && ascending(b));
    }
    list
}

/// The targets are determined by the seeds and the learned addresses: two lists
/// for the same sets are the same list.
pub proof fn law_targets_are_determined(
    s: Seq<Seq<char>>,
    t: Seq<Seq<char>>,
    first: Set<Seq<char>>,
    second: Set<Seq<char>>,
    max: nat,
)
    requires
        first_of(s, first, second, max),
        first_of(t, first, second, max),
    ensures
        s == t,
{
    let (a, b) = choose|a: Seq<Seq<char>>, b: Seq<Seq<char>>| #[trigger]
        ascending(a) && #[trigger] ascending(b) && a.to_set() == first && b.to_set() == second && s
            == cut(a + b, max);
    let (c, d) = choose|a: Seq<Seq<char>>, b: Seq<Seq<char>>| #[trigger]
        ascending(a) && #[trigger] ascending(b) && a.to_set() == first && b.to_set() == second && t
            == cut(a + b, max);
    lemma_ascending_unique(a, c);
    lemma_ascending_unique(b, d);
}

/// Seeds come first: no learned address stands before a seed, and as long as
/// one seed is left out no learned address is dialled. With no more seeds than
/// the bound, every seed is dialled.
pub proof fn law_seeds_come_first(
    s: Seq<Seq<char>>,
    seeds: Set<Seq<char>>,
    learned: Set<Seq<char>>,
    max: nat,
)
    requires
        first_of(s, seeds, learned, max),
        seeds.disjoint(learned),
    ensures
        s.no_duplicates(),
        s.len() <= max,
        forall|i: int| 0 <= i < s.len() ==> seeds.union(learned).contains(#[trigger] s[i]),
        forall|i: int, j: int|
            0 <= i < s.len() && 0 <= j < s.len() && learned.contains(#[trigger] s[i])
                && seeds.contains(#[trigger] s[j]) ==> j < i,
        forall|x: Seq<char>, i: int|
            seeds.contains(x) && !#[trigger] s.contains(x) && 0 <= i < s.len()
                ==> !learned.contains(#[trigger] s[i]),
        seeds.len() <= max ==> seeds.subset_of(s.to_set()),
        seeds.len() + learned.len() <= max ==> s.to_set() == seeds.union(learned),
{
    let (a, b) = choose|a: Seq<Seq<char>>, b: Seq<Seq<char>>| #[trigger]
        ascending(a) && #[trigger] ascending(b) && a.to_set() == seeds && b.to_set() == learned && s
            == cut(a + b, max);
    lemma_ascending_distinct(a);
    lemma_ascending_distinct(b);
    a.unique_seq_to_set();
    b.unique_seq_to_set();
    assert forall|i: int| 0 <= i < s.len() implies s[i] == (a + b)[i] && (i < a.len()
        ==> seeds.contains(#[trigger] s[i])) && (i >= a.len() ==> learned.contains(s[i])) by {
        if i < a.len() {
            assert(a.contains(a[i]));
        } else {
            assert(b.contains(b[i - a.len()]));
        }
    }
    assert forall|i: int, j: int| 0 <= i < s.len() && 0 <= j < s.len() && i != j implies s[i]
        != s[j] by {
        if i < a.len() && j >= a.len() {
            assert(seeds.contains(s[i]) && learned.contains(s[j]));
        } else if i >= a.len() && j < a.len() {
            assert(seeds.contains(s[j]) && learned.contains(s[i]));
        }
    }
    assert forall|x: Seq<char>| seeds.contains(x) && a.len() <= s.len() implies s.contains(x) by {
        assert(a.contains(x));
        let i = choose|i: int| 0 <= i < a.len() && a[i] == x;
        assert(s[i] == x);
    }
    if seeds.len() + learned.len() <= max {
        assert forall|x: Seq<char>| s.to_set().contains(x) == seeds.union(learned).contains(x) by {
            if s.contains(x) {
                let i = choose|i: int| 0 <= i < s.len() && s[i] == x;
                assert(seeds.contains(s[i]) || learned.contains(s[i]));
            }
            if learned.contains(x) {
                assert(b.contains(x));
                let i = choose|i: int| 0 <= i < b.len() && b[i] == x;
                assert(s[a.len() + i] == x);
            }
        }
        assert(s.to_set() =~= seeds.union(learned));
    }
}

proof fn lemma_ascending_distinct(s: Seq<Seq<char>>)
    requires
        ascending(s),
    ensures
        s.no_duplicates(),
{
    assert forall|i: int, j: int| 0 <= i < s.len() && 0 <= j < s.len() && i != j implies s[i]
        != s[j] by {
        lemma_text_order(s[i], s[j]);
        if i < j {
            assert(text_before(s[i], s[j]));
        } else {
            assert(text_before(s[j], s[i]));
        }
    }
}

proof fn lemma_ascending_unique(a: Seq<Seq<char>>, b: Seq<Seq<char>>)
    requires
        ascending(a),
        ascending(b),
        a.to_set() == b.to_set(),
    ensures
        a == b,
    decreases a.len(),
{
    if a.len() == 0 {
        if b.len() > 0 {
            assert(b.to_set().contains(b[0]));
            assert(a.contains(b[0]));
        }
        assert(a =~= b);
    } else {
        assert(a.to_set().contains(a[0]));
        assert(b.contains(a[0]));
        let i = choose|i: int| 0 <= i < b.len() && b[i] == a[0];
        assert(b.to_set().contains(b[0]));
        assert(a.contains(b[0]));
        let j = choose|j: int| 0 <= j < a.len() && a[j] == b[0];
        if i > 0 {
            assert(text_before(b[0], b[i]));
            lemma_text_order(b[0], a[0]);
            assert(j > 0);
            assert(text_before(a[0], a[j]));
        }
        assert(a[0] == b[0]);
        let x = a.drop_first();
        let y = b.drop_first();
        assert(ascending(x)) by {
            assert forall|p: int, q: int| 0 <= p < q < x.len() implies text_before(
                #[trigger] x[p],
                #[trigger] x[q],
            ) by {
                assert(text_before(a[p + 1], a[q + 1]));
            }
        }
        assert(ascending(y)) by {
            assert forall|p: int, q: int| 0 <= p < q < y.len() implies text_before(
                #[trigger] y[p],
                #[trigger] y[q],
            ) by {
                assert(text_before(b[p + 1], b[q + 1]));
            }
        }
        assert forall|t: Seq<char>| x.to_set().contains(t) == y.to_set().contains(t) by {
            if x.contains(t) {
                let p = choose|p: int| 0 <= p < x.len() && x[p] == t;
                assert(a[p + 1] == t);
                assert(a.to_set().contains(t));
                assert(b.contains(t));
                let q = choose|q: int| 0 <= q < b.len() && b[q] == t;
                assert(text_before(a[0], a[p + 1]));
                lemma_text_order(a[0], t);
                assert(q > 0);
                assert(y[q - 1] == t);
            }
            if y.contains(t) {
                let p = choose|p: int| 0 <= p < y.len() && y[p] == t;
                assert(b[p + 1] == t);
                assert(b.to_set().contains(t));
                assert(a.contains(t));
                let q = choose|q: int| 0 <= q < a.len() && a[q] == t;
                assert(text_before(b[0], b[p + 1]));
                lemma_text_order(b[0], t);
                assert(q > 0);
                assert(x[q - 1] == t);
            }
        }
        assert(x.to_set() =~= y.to_set());
        lemma_ascending_unique(x, y);
        assert(a =~= seq![a[0]] + x);
        assert(b =~= seq![b[0]] + y);
    }
}

} // verus!

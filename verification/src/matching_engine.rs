//! A price-time-priority limit-order matching engine.
//!
//! The book is an ordered price map; each non-empty price limit owns a FIFO
//! queue of resting orders, stored as an intrusive singly-linked list inside
//! an arena of book entries.  Best-bid and best-ask prices are cached, with
//! `0` as the "no bid" sentinel and `u64::MAX` as the "no ask" sentinel.

use vstd::prelude::*;
use crate::arena::Arena;
use crate::order_book::{Price, Size, OrderId, Side};

verus! {

#[derive(Clone, Copy, PartialEq, Eq, Structural, Hash, Debug)]
/// An order submitted to the matching engine.
pub struct Order {
    /// Order price, in ticks; must lie strictly between the sentinels.
    pub price: Price,

    /// Order size, in atomic asset units; must be positive.
    pub size: Size,

    /// Order side: `Bid` or `Ask`.
    pub side: Side,
}

impl Order {
    /// The input invariant of the engine: positive size, price strictly
    /// between the "no bid" and "no ask" sentinels.
    pub open spec fn valid(self) -> bool {
        &&& self.size > 0
        &&& 0 < self.price < Price::MAX
    }
}

#[derive(Clone, Copy, PartialEq, Eq, Hash, Debug)]
/// A limit order resting at some price limit of the order book.
struct BookEntry {
    /// Remaining size of the resting order.
    size: Size,

    /// Arena index of the next entry at this price limit; `None` for the
    /// last entry.
    next: Option<usize>,

    /// Identifier assigned at insertion time.
    id: OrderId,
}

#[derive(Clone, Copy, PartialEq, Eq, Hash, Debug)]
/// Arena indices of the first and last entry of one non-empty price limit.
struct Link {
    head: usize,
    tail: usize,
}

#[derive(Clone, Copy, PartialEq, Eq, Hash, Debug)]
/// A price limit of the order book.  `link == None` means the limit has
/// been touched but is currently empty.
struct PriceLimit {
    link: Option<Link>,
}

/// A matching engine.
pub struct MatchingEngine {
    /// The touched prices, sorted in strictly ascending order.
    prices: Vec<Price>,

    /// The price limits, parallel to `prices`.
    limits: Vec<PriceLimit>,

    /// Arena storing the book entries of all price limits.
    entries: Arena<BookEntry>,

    /// Best limits.  INVARIANT: best limits are never empty unless their
    /// value is `0` or `Price::MAX`, and the open price range
    /// `(best_bid, best_ask)` holds no non-empty limit.
    best_bid: Price,
    best_ask: Price,

    /// The identifier the next inserted order will receive.
    max_order_id: OrderId,

    /// For each touched price, the arena indices of its entry list in
    /// head-to-tail order.
    chains: Ghost<Map<Price, Seq<usize>>>,
}

/// The sum of the sizes of a queue of resting `(size, id)` pairs.
pub open spec fn queue_sum(q: Seq<(Size, OrderId)>) -> int
    decreases q.len(),
{
    if q.len() == 0 {
        0
    } else {
        q[0].0 + queue_sum(q.subrange(1, q.len() as int))
    }
}

/// A queue of resting orders crossed by an incoming order of size `rem`:
/// entries are consumed head first; the result is the queue left behind and
/// the unfilled part of `rem`.
pub open spec fn consume_queue(q: Seq<(Size, OrderId)>, rem: int) -> (Seq<(Size, OrderId)>, int)
    decreases q.len(),
{
    if q.len() == 0 {
        (q, rem)
    } else if q[0].0 <= rem {
        consume_queue(q.subrange(1, q.len() as int), rem - q[0].0)
    } else {
        (q.update(0, (((q[0].0 - rem) as Size), q[0].1)), 0)
    }
}

/// A sequence of price-limit queues crossed in order by an incoming order
/// of size `rem`: the result is the queues left behind and the unfilled
/// part of `rem`.
pub open spec fn consume_levels(levels: Seq<Seq<(Size, OrderId)>>, rem: int) -> (
    Seq<Seq<(Size, OrderId)>>,
    int,
)
    decreases levels.len(),
{
    if levels.len() == 0 {
        (levels, rem)
    } else {
        let (q, r) = consume_queue(levels[0], rem);
        let (rest, r2) = consume_levels(levels.subrange(1, levels.len() as int), r);
        (seq![q] + rest, r2)
    }
}

/// The arena record at index `i` is the same in `pre` and `post`.
spec fn post_entries_frame(pre: MatchingEngine, post: MatchingEngine, i: int) -> bool {
    post.entries@[i] == pre.entries@[i]
}

/// `newq` is what is left of `oldq` after some head-first consumption:
/// entries leave from the front, and the front entry may be reduced.
pub open spec fn fifo_remnant(oldq: Seq<(Size, OrderId)>, newq: Seq<(Size, OrderId)>) -> bool {
    exists|t: int| 0 <= t && newq == consume_queue(oldq, t).0
}

impl MatchingEngine {
    /// The cached best bid price (`0` when the bid side is empty).
    pub closed spec fn spec_best_bid(self) -> Price {
        self.best_bid
    }

    /// The cached best ask price (`Price::MAX` when the ask side is empty).
    pub closed spec fn spec_best_ask(self) -> Price {
        self.best_ask
    }

    /// The identifier the next inserted order will receive.
    pub closed spec fn spec_max_order_id(self) -> OrderId {
        self.max_order_id
    }

    /// The arena indices of the entry list at price `p`, head first.
    spec fn chain_at(self, p: Price) -> Seq<usize> {
        if self.chains@.dom().contains(p) {
            self.chains@[p]
        } else {
            Seq::empty()
        }
    }

    /// The size and identifier of the entry at arena index `i`.
    spec fn entry(self, i: usize) -> (Size, OrderId) {
        (self.entries@[i as int]->0.size, self.entries@[i as int]->0.id)
    }

    /// The resting orders at price `p` as `(size, id)` pairs in
    /// time-priority (head-to-tail) order: exactly the arena entries
    /// reachable from the limit's link.  Empty if `p` is untouched or its
    /// limit is empty.
    pub closed spec fn queue_at(self, p: Price) -> Seq<(Size, OrderId)> {
        self.chain_at(p).map(|j: int, i: usize| self.entry(i))
    }

    /// `p` is present in the price map.
    spec fn touched(self, p: Price) -> bool {
        exists|k: int| 0 <= k < self.prices@.len() && self.prices@[k] == p
    }

    /// Every entry of the chain at `p` is a live arena record of positive
    /// size, the `next` pointers thread the chain in order, and identifiers
    /// strictly increase along the chain.
    spec fn chain_ok(self, p: Price) -> bool {
        let c = self.chain_at(p);
        forall|j: int|
            0 <= j < c.len() ==> {
                &&& (#[trigger] c[j]) < self.entries@.len()
                &&& self.entries@[c[j] as int] is Some
                &&& self.entries@[c[j] as int]->0.size > 0
                &&& self.entries@[c[j] as int]->0.next == (if j + 1 < c.len() {
                    Some(c[j + 1])
                } else {
                    None::<usize>
                })
                &&& self.entries@[c[j] as int]->0.id < self.max_order_id
                &&& (j + 1 < c.len() ==> self.entries@[c[j] as int]->0.id
                    < self.entries@[c[j + 1] as int]->0.id)
            }
    }

    /// The limit at position `k` of the price map agrees with the ghost
    /// chain of its price: an empty link means an empty chain, and a
    /// non-empty link points at the chain's head and tail.
    spec fn limit_ok(self, k: int) -> bool {
        let p = self.prices@[k];
        let c = self.chain_at(p);
        &&& self.chains@.dom().contains(p)
        &&& match self.limits@[k].link {
            None => c.len() == 0,
            Some(l) => c.len() > 0 && l.head == c[0] && l.tail == c[c.len() - 1],
        }
    }

    /// No arena index appears twice, within one chain or across chains.
    spec fn chains_disjoint(self) -> bool {
        forall|p1: Price, j1: int, p2: Price, j2: int|
            0 <= j1 < self.chain_at(p1).len() && 0 <= j2 < self.chain_at(p2).len() && (p1 != p2
                || j1 != j2) ==> #[trigger] self.chain_at(p1)[j1] != #[trigger] self.chain_at(
                p2,
            )[j2]
    }

    /// Structural well-formedness of the book: valid arena and free list,
    /// sorted price map, chains matching links and `next` pointers with no
    /// sharing (I5, I6), unique strictly-increasing identifiers (I7), and
    /// per-price aggregate sizes that fit the size type.
    pub closed spec fn wf_core(self) -> bool {
        &&& self.entries.wf()
        &&& self.prices@.len() == self.limits@.len()
        &&& (forall|k1: int, k2: int|
            0 <= k1 < k2 < self.prices@.len() ==> self.prices@[k1] < self.prices@[k2])
        &&& (forall|k: int|
            0 <= k < self.prices@.len() ==> 0 < #[trigger] self.prices@[k] < Price::MAX)
        &&& (forall|p: Price| self.chains@.dom().contains(p) ==> #[trigger] self.touched(p))
        &&& (forall|k: int| 0 <= k < self.prices@.len() ==> self.limit_ok(k))
        &&& (forall|p: Price| #[trigger] self.chain_ok(p))
        &&& self.chains_disjoint()
        &&& (forall|p1: Price, j1: int, p2: Price, j2: int|
            0 <= j1 < self.chain_at(p1).len() && 0 <= j2 < self.chain_at(p2).len() && (p1 != p2
                || j1 != j2) ==> (#[trigger] self.entry(self.chain_at(p1)[j1])).1 != (
            #[trigger] self.entry(self.chain_at(p2)[j2])).1)
        &&& (forall|p: Price| queue_sum(#[trigger] self.queue_at(p)) <= Size::MAX)
    }

    /// The best-limit invariants: a cached best limit that is not a
    /// sentinel is non-empty (I1, I2), the open interval between the best
    /// limits is empty (I3), and the book is not crossed (I4).
    pub closed spec fn wf_best(self) -> bool {
        &&& self.best_bid < self.best_ask
        &&& (self.best_bid != 0 ==> self.queue_at(self.best_bid).len() > 0)
        &&& (self.best_ask != Price::MAX ==> self.queue_at(self.best_ask).len() > 0)
        &&& (forall|p: Price|
            self.best_bid < p < self.best_ask ==> (#[trigger] self.queue_at(p)).len() == 0)
    }

    /// Well-formedness of the whole engine: holds after construction and is
    /// preserved by every public operation.
    pub open spec fn wf(self) -> bool {
        self.wf_core() && self.wf_best()
    }

    /// Return a new matching engine, preallocating `capacity` book entries.
    pub fn new(capacity: usize) -> (me: Self)
        ensures
            me.wf(),
            me.spec_best_bid() == 0,
            me.spec_best_ask() == Price::MAX,
            me.spec_max_order_id() == 0,
            forall|p: Price| (#[trigger] me.queue_at(p)).len() == 0,
    {
        let me = MatchingEngine {
            prices: Vec::new(),
            limits: Vec::new(),
            entries: Arena::new(capacity),
            best_bid: 0,
            best_ask: Price::MAX,
            max_order_id: 0,
            chains: Ghost(Map::empty()),
        };
        proof {
            assert forall|p: Price| (#[trigger] me.queue_at(p)).len() == 0 by {
                assert(!me.chains@.dom().contains(p));
            }
            assert forall|p: Price| #[trigger] me.chain_ok(p) by {
                assert(me.chain_at(p).len() == 0);
            }
            assert forall|p: Price| queue_sum(#[trigger] me.queue_at(p)) <= Size::MAX by {
                assert(me.queue_at(p).len() == 0);
            }
        }
        me
    }

    /// Return the best prices, respectively best bid and best ask.
    pub fn best_limits(&self) -> (r: (Price, Price))
        ensures
            r == (self.spec_best_bid(), self.spec_best_ask()),
    {
        (self.best_bid, self.best_ask)
    }

    /// The position of the first price in the map that is `>= p`, or the
    /// map's length if every price is smaller.
    fn lower_bound(&self, p: Price) -> (k: usize)
        requires
            self.wf_core(),
        ensures
            k <= self.prices@.len(),
            forall|j: int| 0 <= j < k ==> self.prices@[j] < p,
            k < self.prices@.len() ==> self.prices@[k as int] >= p,
    {
        let n = self.prices.len();
        let mut k: usize = 0;
        while k < n && self.prices[k] < p
            invariant
                n == self.prices@.len(),
                k <= n,
                forall|j: int| 0 <= j < k ==> self.prices@[j] < p,
            decreases n - k,
        {
            k = k + 1;
        }
        k
    }

    /// The position of `p` in the price map, if `p` has been touched.
    fn find(&self, p: Price) -> (r: Option<usize>)
        requires
            self.wf_core(),
        ensures
            match r {
                Some(k) => k < self.prices@.len() && self.prices@[k as int] == p,
                None => !self.touched(p),
            },
    {
        let k = self.lower_bound(p);
        if k < self.prices.len() {
            if self.prices[k] == p {
                return Some(k);
            }
        }
        proof {
            if self.touched(p) {
                let j = choose|j: int| 0 <= j < self.prices@.len() && self.prices@[j] == p;
                if j < k {
                } else {
                    assert(self.prices@[k as int] >= p);
                    if j > k {
                        assert(self.prices@[k as int] < self.prices@[j]);
                    }
                }
            }
        }
        None
    }

    /// Retrieve the total resting size at the given price: the sum of
    /// `size` over all arena entries reachable from the price's limit.
    #[verifier::rlimit(60)]
    pub fn size_at_price(&self, price: Price) -> (r: Size)
        requires
            self.wf(),
        ensures
            r == queue_sum(self.queue_at(price)),
    {
        let maybe_k = self.find(price);
        let k = match maybe_k {
            None => {
                proof {
                    assert(!self.chains@.dom().contains(price));
                    assert(self.queue_at(price).len() == 0);
                }
                return 0;
            },
            Some(k) => k,
        };
        proof {
            assert(self.limit_ok(k as int));
        }
        let link = match self.limits[k].link {
            None => {
                proof {
                    assert(self.queue_at(price).len() == 0);
                }
                return 0;
            },
            Some(link) => link,
        };
        let ghost q = self.queue_at(price);
        let ghost c = self.chain_at(price);
        proof {
            assert(self.chain_ok(price));
            lemma_queue_sum_nonneg_all(q);
            assert(q.subrange(0, q.len() as int) =~= q);
        }
        let mut total: Size = 0;
        let mut cur: Option<usize> = Some(link.head);
        let ghost j: int = 0;
        loop
            invariant
                self.wf(),
                q == self.queue_at(price),
                c == self.chain_at(price),
                0 <= j <= c.len(),
                cur == (if j < c.len() {
                    Some(c[j])
                } else {
                    None::<usize>
                }),
                total + queue_sum(q.subrange(j, q.len() as int)) == queue_sum(q),
            ensures
                total == queue_sum(q),
            decreases c.len() - j,
        {
            let i = match cur {
                Some(i) => i,
                None => {
                    proof {
                        assert(q.subrange(j, q.len() as int).len() == 0);
                    }
                    break;
                },
            };
            proof {
                assert(self.chain_ok(price));
                assert(q[j] == self.entry(c[j]));
                lemma_queue_sum_nonneg_all(q);
                assert(queue_sum(q.subrange(j, q.len() as int)) == q[j].0 + queue_sum(
                    q.subrange(j + 1, q.len() as int),
                )) by {
                    assert(q.subrange(j, q.len() as int).subrange(
                        1,
                        q.subrange(j, q.len() as int).len() as int,
                    ) =~= q.subrange(j + 1, q.len() as int));
                }
            }
            let e = self.entries.get(i);
            total = total + e.size;
            cur = e.next;
            proof {
                j = j + 1;
            }
        }
        total
    }
    /// Insert an order in the order book and update best limits
    /// consequently.  The order must not be marketable; it joins the tail
    /// of the queue at its price and receives the next identifier.
    #[verifier::rlimit(100)]
    fn insert_order(&mut self, order: Order) -> (id: OrderId)
        requires
            old(self).wf(),
            order.valid(),
            order.side == Side::Bid ==> order.price < old(self).spec_best_ask(),
            order.side == Side::Ask ==> order.price > old(self).spec_best_bid(),
            queue_sum(old(self).queue_at(order.price)) + order.size <= Size::MAX,
            old(self).spec_max_order_id() < OrderId::MAX,
        ensures
            final(self).wf(),
            id == old(self).spec_max_order_id(),
            final(self).spec_max_order_id() == id + 1,
            final(self).queue_at(order.price) == old(self).queue_at(order.price).push(
                (order.size, id),
            ),
            forall|p: Price|
                p != order.price ==> final(self).queue_at(p) == old(self).queue_at(p),
            final(self).spec_best_bid() == (if order.side == Side::Bid && order.price > old(self).spec_best_bid() {
                order.price
            } else {
                old(self).spec_best_bid()
            }),
            final(self).spec_best_ask() == (if order.side == Side::Ask && order.price < old(self).spec_best_ask() {
                order.price
            } else {
                old(self).spec_best_ask()
            }),
    {
        let ghost pre = *old(self);
        let ghost oldc = pre.chain_at(order.price);
        let ghost t: int = if oldc.len() > 0 {
            oldc.last() as int
        } else {
            -1
        };
        let k = self.lower_bound(order.price);
        let id = self.max_order_id;
        let index = self.entries.allocate(BookEntry { size: order.size, next: None, id });
        self.max_order_id = id + 1;
        let existing = if k < self.prices.len() {
            self.prices[k] == order.price
        } else {
            false
        };
        if existing {
            proof {
                assert(pre.limit_ok(k as int));
                assert(pre.chain_ok(order.price));
            }
            let l = self.limits[k].link;
            match l {
                Some(link) => {
                    proof {
                        assert(oldc[oldc.len() - 1] == link.tail);
                        assert(pre.entries@[link.tail as int] is Some);
                        assert(link.tail != index);
                    }
                    proof {
                        assert(self.entries@[link.tail as int] == pre.entries@[link.tail as int]);
                    }
                    let e = self.entries.get_mut(link.tail);
                    e.next = Some(index);
                    proof {
                        assert(self.entries@[link.tail as int] == Some(
                            BookEntry {
                                size: pre.entries@[link.tail as int]->0.size,
                                next: Some(index),
                                id: pre.entries@[link.tail as int]->0.id,
                            },
                        ));
                    }
                },
                None => {
                },
            }
            let lim = &mut self.limits[k];
            match l {
                Some(link) => {
                    lim.link = Some(Link { head: link.head, tail: index });
                },
                None => {
                    lim.link = Some(Link { head: index, tail: index });
                },
            }
        } else {
            self.prices.insert(k, order.price);
            self.limits.insert(k, PriceLimit { link: Some(Link { head: index, tail: index }) });
        }
        match order.side {
            Side::Bid => if order.price > self.best_bid {
                self.best_bid = order.price;
            },
            Side::Ask => if order.price < self.best_ask {
                self.best_ask = order.price;
            },
        }
        proof {
            self.chains@ = self.chains@.insert(order.price, oldc.push(index));
            if !existing {
                assert(!pre.touched(order.price)) by {
                    if pre.touched(order.price) {
                        let j = choose|j: int|
                            0 <= j < pre.prices@.len() && pre.prices@[j] == order.price;
                        if j > k {
                            assert(pre.prices@[k as int] < pre.prices@[j]);
                        }
                    }
                }
                assert(oldc.len() == 0);
            }
            assert forall|i: int|
                0 <= i < pre.entries@.len() && i != index && i != t implies post_entries_frame(
                pre,
                *self,
                i,
            ) by {
                assert(pre.chain_ok(order.price));
            }
            assert(MatchingEngine::inserted_shape(pre, *self, order, id, index, k, existing, t));
            Self::lemma_inserted(pre, *self, order, id, index, k, existing, t);
        }
        id
    }

    /// Cross an incoming order of remaining size `rem` through the price
    /// limit at position `k` of the price map: entries are consumed head
    /// first, exhausted entries are freed, and a partially consumed head
    /// keeps its place with a reduced size.  Returns the unfilled part of
    /// `rem`.
    fn consume_at(&mut self, k: usize, rem: Size) -> (new_rem: Size)
        requires
            old(self).wf_core(),
            k < old(self).prices@.len(),
        ensures
            final(self).wf_core(),
            final(self).prices@ == old(self).prices@,
            final(self).spec_best_bid() == old(self).spec_best_bid(),
            final(self).spec_best_ask() == old(self).spec_best_ask(),
            final(self).spec_max_order_id() == old(self).spec_max_order_id(),
            final(self).queue_at(old(self).prices@[k as int]) == consume_queue(
                old(self).queue_at(old(self).prices@[k as int]),
                rem as int,
            ).0,
            new_rem == consume_queue(old(self).queue_at(old(self).prices@[k as int]), rem as int).1,
            new_rem <= rem,
            forall|p: Price|
                p != old(self).prices@[k as int] ==> final(self).queue_at(p) == old(self).queue_at(
                    p,
                ),
    {
        let ghost pre = *old(self);
        let p = self.prices[k];
        let ghost target = consume_queue(pre.queue_at(p), rem as int);
        let ghost rem0 = rem;
        let mut rem = rem;
        proof {
            lemma_consume_queue_rem(pre.queue_at(p), rem as int);
        }
        loop
            invariant
                self.wf_core(),
                k < self.prices@.len(),
                self.prices@ == pre.prices@,
                p == self.prices@[k as int],
                self.best_bid == pre.best_bid,
                self.best_ask == pre.best_ask,
                self.max_order_id == pre.max_order_id,
                0 <= rem <= rem0,
                consume_queue(self.queue_at(p), rem as int) == target,
                forall|q: Price| q != p ==> self.queue_at(q) == pre.queue_at(q),
            ensures
                self.wf_core(),
                self.prices@ == pre.prices@,
                p == self.prices@[k as int],
                self.best_bid == pre.best_bid,
                self.best_ask == pre.best_ask,
                self.max_order_id == pre.max_order_id,
                rem <= rem0,
                self.queue_at(p) == target.0,
                rem as int == target.1,
                forall|q: Price| q != p ==> self.queue_at(q) == pre.queue_at(q),
            decreases self.queue_at(p).len(), rem,
        {
            let ghost cur = *self;
            let ghost q = cur.queue_at(p);
            proof {
                assert(cur.limit_ok(k as int));
                assert(cur.chain_ok(p));
            }
            let l = self.limits[k].link;
            let link = match l {
                None => {
                    proof {
                        assert(q.len() == 0);
                    }
                    break;
                },
                Some(link) => link,
            };
            if rem == 0 {
                proof {
                    lemma_consume_queue_zero(q);
                }
                break;
            }
            let head = link.head;
            proof {
                assert(cur.chain_at(p)[0] == head);
            }
            let e = *self.entries.get(head);
            if e.size <= rem {
                rem = rem - e.size;
                self.entries.free(head);
                let lim = &mut self.limits[k];
                match e.next {
                    Some(n) => {
                        lim.link = Some(Link { head: n, tail: link.tail });
                    },
                    None => {
                        lim.link = None;
                    },
                }
                proof {
                    let c = cur.chain_at(p);
                    self.chains@ = self.chains@.insert(p, c.subrange(1, c.len() as int));
                    if c.len() > 1 {
                        assert(e.next == Some(c[1]));
                    } else {
                        assert(e.next is None);
                    }
                    assert(MatchingEngine::popped_shape(cur, *self, k, head));
                    Self::lemma_consume_pop(cur, *self, k, head);
                    assert(consume_queue(self.queue_at(p), rem as int) == target);
                }
            } else {
                let newsize = e.size - rem;
                let e2 = self.entries.get_mut(head);
                e2.size = newsize;
                proof {
                    assert(self.entries@[head as int] == Some(
                        BookEntry { size: newsize, next: e.next, id: e.id },
                    ));
                }
                proof {
                    assert(MatchingEngine::reduced_shape(cur, *self, k, head, newsize));
                    Self::lemma_consume_reduce(cur, *self, k, head, newsize);
                    assert(self.queue_at(p) == q.update(0, (newsize, e.id)));
                    assert(consume_queue(q, rem as int) == (q.update(0, (newsize, e.id)), 0int));
                }
                rem = 0;
                proof {
                    lemma_consume_queue_zero(self.queue_at(p));
                }
            }
        }
        rem
    }

    /// `post` is the book reached from `pre` by freeing the exhausted head
    /// entry (arena index `head`) of the queue at the price at position `k`
    /// and unlinking it; everything else is untouched.
    spec fn popped_shape(pre: Self, post: Self, k: usize, head: usize) -> bool {
        &&& k < pre.prices@.len()
        &&& pre.chain_at(pre.prices@[k as int]).len() > 0
        &&& head == pre.chain_at(pre.prices@[k as int])[0]
        &&& post.entries.wf()
        &&& post.entries@ == pre.entries@.update(head as int, None)
        &&& post.chains@ == pre.chains@.insert(
            pre.prices@[k as int],
            pre.chain_at(pre.prices@[k as int]).subrange(
                1,
                pre.chain_at(pre.prices@[k as int]).len() as int,
            ),
        )
        &&& post.limits@ == pre.limits@.update(
            k as int,
            PriceLimit {
                link: if pre.chain_at(pre.prices@[k as int]).len() > 1 {
                    Some(
                        Link {
                            head: pre.chain_at(pre.prices@[k as int])[1],
                            tail: pre.chain_at(pre.prices@[k as int]).last(),
                        },
                    )
                } else {
                    None
                },
            },
        )
        &&& post.prices@ == pre.prices@
        &&& post.best_bid == pre.best_bid
        &&& post.best_ask == pre.best_ask
        &&& post.max_order_id == pre.max_order_id
    }

    /// Under `popped_shape`, the queues of `post`: the one at the popped
    /// price lost its head, the others are untouched.
    #[verifier::rlimit(50)]
    proof fn lemma_pop_frame(pre: Self, post: Self, k: usize, head: usize)
        requires
            pre.wf_core(),
            Self::popped_shape(pre, post, k, head),
        ensures
            post.queue_at(pre.prices@[k as int]) == pre.queue_at(pre.prices@[k as int]).subrange(
                1,
                pre.queue_at(pre.prices@[k as int]).len() as int,
            ),
            forall|q: Price| q != pre.prices@[k as int] ==> post.queue_at(q) == pre.queue_at(q),
            forall|q: Price, j: int|
                0 <= j < post.chain_at(q).len() ==> post.entries@[(#[trigger] post.chain_at(
                    q,
                )[j]) as int] == pre.entries@[post.chain_at(q)[j] as int],
    {
        let p = pre.prices@[k as int];
        let c = pre.chain_at(p);
        assert(pre.chain_ok(p));
        assert forall|q: Price, j: int|
            0 <= j < pre.chain_at(q).len() && !(q == p && j == 0) implies #[trigger] pre.chain_at(
            q,
        )[j] != head by {
            assert(pre.chains_disjoint());
            assert(pre.chain_at(q)[j] != pre.chain_at(p)[0]);
        }
        assert forall|q: Price, j: int|
            0 <= j < post.chain_at(q).len() implies post.entries@[(#[trigger] post.chain_at(
            q,
        )[j]) as int] == pre.entries@[post.chain_at(q)[j] as int] by {
            assert(pre.chain_at(p)[0] == head);
            assert(head < pre.entries@.len());
            if q == p {
                assert(post.chain_at(q)[j] == c[j + 1]);
                assert(pre.chain_at(p)[j + 1] != head);
                assert(c[j + 1] < pre.entries@.len());
            } else {
                assert(pre.chain_ok(q));
                assert(post.chain_at(q) == pre.chain_at(q));
                assert(pre.chain_at(q)[j] != head);
                assert(pre.chain_at(q)[j] < pre.entries@.len());
            }
        }
        assert forall|q: Price| q != p implies post.queue_at(q) == pre.queue_at(q) by {
            assert(post.chain_at(q) == pre.chain_at(q));
            assert(post.queue_at(q) =~= pre.queue_at(q));
        }
        assert(post.chain_at(p) == c.subrange(1, c.len() as int));
        assert(post.queue_at(p) =~= pre.queue_at(p).subrange(1, pre.queue_at(p).len() as int));
    }

    /// Under `popped_shape`, the chains of `post` stay well threaded and
    /// matched by the price map.
    #[verifier::rlimit(50)]
    proof fn lemma_pop_chains(pre: Self, post: Self, k: usize, head: usize)
        requires
            pre.wf_core(),
            Self::popped_shape(pre, post, k, head),
        ensures
            forall|q: Price| #[trigger] post.chain_ok(q),
            forall|k2: int| 0 <= k2 < post.prices@.len() ==> post.limit_ok(k2),
    {
        let p = pre.prices@[k as int];
        let c = pre.chain_at(p);
        assert(pre.chain_ok(p));
        Self::lemma_pop_frame(pre, post, k, head);
        assert forall|q: Price| #[trigger] post.chain_ok(q) by {
            assert(pre.chain_ok(q));
            if q == p {
                assert(post.chain_at(q) == c.subrange(1, c.len() as int));
                assert forall|j: int|
                    0 <= j < post.chain_at(q).len() implies post.entries@[(
                    #[trigger] post.chain_at(q)[j]) as int] == pre.entries@[c[j + 1] as int] by {
                    assert(post.chain_at(q)[j] == c[j + 1]);
                }
            } else {
                assert(post.chain_at(q) == pre.chain_at(q));
            }
        }
        assert forall|k2: int| 0 <= k2 < post.prices@.len() implies post.limit_ok(k2) by {
            assert(pre.limit_ok(k2));
            if k2 != k {
                assert(pre.prices@[k2] != p);
            } else {
                if c.len() > 1 {
                    assert(post.chain_at(p).last() == c.last());
                }
            }
        }
    }

    /// Under `popped_shape`, the chains of `post` stay disjoint with
    /// unique identifiers.
    #[verifier::rlimit(50)]
    proof fn lemma_pop_ids(pre: Self, post: Self, k: usize, head: usize)
        requires
            pre.wf_core(),
            Self::popped_shape(pre, post, k, head),
        ensures
            post.chains_disjoint(),
            forall|p1: Price, j1: int, p2: Price, j2: int|
                0 <= j1 < post.chain_at(p1).len() && 0 <= j2 < post.chain_at(p2).len() && (p1 != p2
                    || j1 != j2) ==> (#[trigger] post.entry(post.chain_at(p1)[j1])).1 != (
                #[trigger] post.entry(post.chain_at(p2)[j2])).1,
    {
        let p = pre.prices@[k as int];
        let c = pre.chain_at(p);
        Self::lemma_pop_frame(pre, post, k, head);
        assert forall|p1: Price, j1: int, p2: Price, j2: int|
            0 <= j1 < post.chain_at(p1).len() && 0 <= j2 < post.chain_at(p2).len() && (p1 != p2
                || j1 != j2) implies #[trigger] post.chain_at(p1)[j1] != #[trigger] post.chain_at(
            p2,
        )[j2] by {
            let jj1: int = if p1 == p {
                j1 + 1
            } else {
                j1
            };
            let jj2: int = if p2 == p {
                j2 + 1
            } else {
                j2
            };
            assert(post.chain_at(p1)[j1] == pre.chain_at(p1)[jj1]);
            assert(post.chain_at(p2)[j2] == pre.chain_at(p2)[jj2]);
            assert(pre.chains_disjoint());
        }
        assert forall|p1: Price, j1: int, p2: Price, j2: int|
            0 <= j1 < post.chain_at(p1).len() && 0 <= j2 < post.chain_at(p2).len() && (p1 != p2
                || j1 != j2) implies (#[trigger] post.entry(post.chain_at(p1)[j1])).1 != (
        #[trigger] post.entry(post.chain_at(p2)[j2])).1 by {
            let jj1: int = if p1 == p {
                j1 + 1
            } else {
                j1
            };
            let jj2: int = if p2 == p {
                j2 + 1
            } else {
                j2
            };
            assert(post.chain_at(p1)[j1] == pre.chain_at(p1)[jj1]);
            assert(post.chain_at(p2)[j2] == pre.chain_at(p2)[jj2]);
            assert(post.entry(post.chain_at(p1)[j1]) == pre.entry(pre.chain_at(p1)[jj1]));
            assert(post.entry(post.chain_at(p2)[j2]) == pre.entry(pre.chain_at(p2)[jj2]));
            assert(pre.entry(pre.chain_at(p1)[jj1]).1 != pre.entry(pre.chain_at(p2)[jj2]).1);
        }
    }

    /// `post` is `pre` with the exhausted head entry of the queue at the
    /// price at position `k` freed and unlinked: the queue loses its first
    /// entry and everything else is untouched.
    #[verifier::rlimit(50)]
    proof fn lemma_consume_pop(pre: Self, post: Self, k: usize, head: usize)
        requires
            pre.wf_core(),
            Self::popped_shape(pre, post, k, head),
        ensures
            post.wf_core(),
            post.queue_at(pre.prices@[k as int]) == pre.queue_at(pre.prices@[k as int]).subrange(
                1,
                pre.queue_at(pre.prices@[k as int]).len() as int,
            ),
            forall|q: Price| q != pre.prices@[k as int] ==> post.queue_at(q) == pre.queue_at(q),
    {
        let p = pre.prices@[k as int];
        Self::lemma_pop_frame(pre, post, k, head);
        Self::lemma_pop_chains(pre, post, k, head);
        Self::lemma_pop_ids(pre, post, k, head);
        assert forall|q: Price| post.chains@.dom().contains(q) implies #[trigger] post.touched(
            q,
        ) by {
            if q == p {
                assert(post.prices@[k as int] == q);
            } else {
                assert(pre.touched(q));
                let j = choose|j: int| 0 <= j < pre.prices@.len() && pre.prices@[j] == q;
                assert(post.prices@[j] == q);
            }
        }
        assert forall|q: Price| queue_sum(#[trigger] post.queue_at(q)) <= Size::MAX by {
            if q == p {
                lemma_queue_sum_suffix(pre.queue_at(p), 1);
            } else {
                assert(post.queue_at(q) == pre.queue_at(q));
            }
        }
    }

    /// `post` is the book reached from `pre` by reducing the head entry
    /// (arena index `head`) of the queue at the price at position `k` to
    /// `newsize`; everything else is untouched.
    spec fn reduced_shape(pre: Self, post: Self, k: usize, head: usize, newsize: Size) -> bool {
        &&& k < pre.prices@.len()
        &&& pre.chain_at(pre.prices@[k as int]).len() > 0
        &&& head == pre.chain_at(pre.prices@[k as int])[0]
        &&& 0 < newsize <= pre.entries@[head as int]->0.size
        &&& post.entries.wf()
        &&& post.entries@ == pre.entries@.update(
            head as int,
            Some(
                BookEntry {
                    size: newsize,
                    next: pre.entries@[head as int]->0.next,
                    id: pre.entries@[head as int]->0.id,
                },
            ),
        )
        &&& post.chains@ == pre.chains@
        &&& post.limits@ == pre.limits@
        &&& post.prices@ == pre.prices@
        &&& post.best_bid == pre.best_bid
        &&& post.best_ask == pre.best_ask
        &&& post.max_order_id == pre.max_order_id
    }

    /// Under `reduced_shape`, only the head entry of the reduced queue
    /// changed, and only in its size.
    #[verifier::rlimit(50)]
    proof fn lemma_reduce_frame(pre: Self, post: Self, k: usize, head: usize, newsize: Size)
        requires
            pre.wf_core(),
            Self::reduced_shape(pre, post, k, head, newsize),
        ensures
            post.queue_at(pre.prices@[k as int]) == pre.queue_at(pre.prices@[k as int]).update(
                0,
                (newsize, pre.entries@[head as int]->0.id),
            ),
            forall|q: Price| q != pre.prices@[k as int] ==> post.queue_at(q) == pre.queue_at(q),
            forall|q: Price, j: int|
                0 <= j < post.chain_at(q).len() && !(q == pre.prices@[k as int] && j == 0)
                    ==> post.entries@[(#[trigger] post.chain_at(q)[j]) as int] == pre.entries@[post.chain_at(
                    q,
                )[j] as int],
    {
        let p = pre.prices@[k as int];
        let c = pre.chain_at(p);
        assert(pre.chain_ok(p));
        assert forall|q: Price, j: int|
            0 <= j < pre.chain_at(q).len() && !(q == p && j == 0) implies #[trigger] pre.chain_at(
            q,
        )[j] != head by {
            assert(pre.chains_disjoint());
            assert(pre.chain_at(q)[j] != pre.chain_at(p)[0]);
        }
        assert forall|q: Price, j: int|
            0 <= j < post.chain_at(q).len() && !(q == p && j == 0) implies post.entries@[(
        #[trigger] post.chain_at(q)[j]) as int] == pre.entries@[post.chain_at(q)[j] as int] by {
            assert(pre.chain_ok(q));
            assert(pre.chain_at(p)[0] == head);
            assert(head < pre.entries@.len());
            assert(post.chain_at(q) == pre.chain_at(q));
            assert(pre.chain_at(q)[j] != head);
            assert(pre.chain_at(q)[j] < pre.entries@.len());
        }
        assert forall|q: Price| q != p implies post.queue_at(q) == pre.queue_at(q) by {
            assert(post.chain_at(q) == pre.chain_at(q));
            assert(pre.chain_ok(q));
            assert(post.queue_at(q) =~= pre.queue_at(q));
        }
        assert(post.queue_at(p) =~= pre.queue_at(p).update(
            0,
            (newsize, pre.entries@[head as int]->0.id),
        ));
    }

    /// Under `reduced_shape`, the chains of `post` stay well threaded.
    #[verifier::rlimit(50)]
    proof fn lemma_reduce_chains(pre: Self, post: Self, k: usize, head: usize, newsize: Size)
        requires
            pre.wf_core(),
            Self::reduced_shape(pre, post, k, head, newsize),
        ensures
            forall|q: Price| #[trigger] post.chain_ok(q),
    {
        let p = pre.prices@[k as int];
        Self::lemma_reduce_frame(pre, post, k, head, newsize);
        assert(pre.chain_ok(p));
        assert(pre.chain_at(p)[0] == head);
        assert(head < pre.entries@.len());
        assert forall|q: Price| #[trigger] post.chain_ok(q) by {
            assert(pre.chain_ok(q));
            assert(post.chain_at(q) == pre.chain_at(q));
            let c = post.chain_at(q);
            assert forall|j: int|
                0 <= j < c.len() implies (#[trigger] c[j]) < post.entries@.len()
                && post.entries@[c[j] as int] is Some && post.entries@[c[j] as int]->0.size > 0
                && post.entries@[c[j] as int]->0.next == (if j + 1 < c.len() {
                Some(c[j + 1])
            } else {
                None::<usize>
            }) && post.entries@[c[j] as int]->0.id < post.max_order_id && (j + 1 < c.len()
                ==> post.entries@[c[j] as int]->0.id < post.entries@[c[j + 1] as int]->0.id) by {
                assert(c[j] < pre.entries@.len());
                if q == p && j == 0 {
                    assert(c[j] == head);
                } else {
                    assert(post.entries@[c[j] as int] == pre.entries@[c[j] as int]);
                }
                if j + 1 < c.len() {
                    if q == p && j + 1 == 0 {
                    } else {
                        assert(post.entries@[c[j + 1] as int] == pre.entries@[c[j + 1] as int]);
                    }
                }
            }
        }
    }

    /// `post` is `pre` with the head entry of the queue at the price at
    /// position `k` reduced to `newsize`: the queue keeps its shape and
    /// everything else is untouched.
    #[verifier::rlimit(50)]
    proof fn lemma_consume_reduce(pre: Self, post: Self, k: usize, head: usize, newsize: Size)
        requires
            pre.wf_core(),
            Self::reduced_shape(pre, post, k, head, newsize),
        ensures
            post.wf_core(),
            post.queue_at(pre.prices@[k as int]) == pre.queue_at(pre.prices@[k as int]).update(
                0,
                (newsize, pre.entries@[head as int]->0.id),
            ),
            forall|q: Price| q != pre.prices@[k as int] ==> post.queue_at(q) == pre.queue_at(q),
    {
        let p = pre.prices@[k as int];
        Self::lemma_reduce_frame(pre, post, k, head, newsize);
        Self::lemma_reduce_chains(pre, post, k, head, newsize);
        assert(pre.chain_ok(p));
        assert(pre.chain_at(p)[0] == head);
        assert(head < pre.entries@.len());
        assert forall|k2: int| 0 <= k2 < post.prices@.len() implies post.limit_ok(k2) by {
            assert(pre.limit_ok(k2));
        }
        assert forall|q: Price| post.chains@.dom().contains(q) implies #[trigger] post.touched(
            q,
        ) by {
            assert(pre.touched(q));
            let j = choose|j: int| 0 <= j < pre.prices@.len() && pre.prices@[j] == q;
            assert(post.prices@[j] == q);
        }
        assert(post.chains_disjoint()) by {
            assert forall|p1: Price, j1: int, p2: Price, j2: int|
                0 <= j1 < post.chain_at(p1).len() && 0 <= j2 < post.chain_at(p2).len() && (p1 != p2
                    || j1 != j2) implies #[trigger] post.chain_at(p1)[j1]
                != #[trigger] post.chain_at(p2)[j2] by {
                assert(post.chain_at(p1) == pre.chain_at(p1));
                assert(post.chain_at(p2) == pre.chain_at(p2));
                assert(pre.chains_disjoint());
                assert(pre.chain_at(p1)[j1] != pre.chain_at(p2)[j2]);
            }
        }
        assert forall|p1: Price, j1: int, p2: Price, j2: int|
            0 <= j1 < post.chain_at(p1).len() && 0 <= j2 < post.chain_at(p2).len() && (p1 != p2
                || j1 != j2) implies (#[trigger] post.entry(post.chain_at(p1)[j1])).1 != (
        #[trigger] post.entry(post.chain_at(p2)[j2])).1 by {
            assert(pre.chain_ok(p1));
            assert(pre.chain_ok(p2));
            assert(post.chain_at(p1) == pre.chain_at(p1));
            assert(post.chain_at(p2) == pre.chain_at(p2));
            if p1 == p && j1 == 0 {
                assert(post.entry(post.chain_at(p1)[j1]).1 == pre.entry(pre.chain_at(p1)[j1]).1);
            } else {
                assert(post.entries@[pre.chain_at(p1)[j1] as int] == pre.entries@[pre.chain_at(
                    p1,
                )[j1] as int]);
            }
            if p2 == p && j2 == 0 {
                assert(post.entry(post.chain_at(p2)[j2]).1 == pre.entry(pre.chain_at(p2)[j2]).1);
            } else {
                assert(post.entries@[pre.chain_at(p2)[j2] as int] == pre.entries@[pre.chain_at(
                    p2,
                )[j2] as int]);
            }
            assert(pre.entry(pre.chain_at(p1)[j1]).1 != pre.entry(pre.chain_at(p2)[j2]).1);
        }
        assert forall|q: Price| queue_sum(#[trigger] post.queue_at(q)) <= Size::MAX by {
            if q == p {
                lemma_queue_sum_update_le(
                    pre.queue_at(p),
                    0,
                    (newsize, pre.entries@[head as int]->0.id),
                );
            } else {
                assert(post.queue_at(q) == pre.queue_at(q));
            }
        }
    }

    /// The queues of the touched prices in `[lo, hi]`, ascending, scanning
    /// the price map from position `k` upward.
    spec fn levels_up_from(self, k: int, lo: Price, hi: Price) -> Seq<Seq<(Size, OrderId)>>
        decreases self.prices@.len() - k,
    {
        if k < 0 || k >= self.prices@.len() || self.prices@[k] > hi {
            Seq::empty()
        } else if self.prices@[k] < lo {
            self.levels_up_from(k + 1, lo, hi)
        } else {
            seq![self.queue_at(self.prices@[k])] + self.levels_up_from(k + 1, lo, hi)
        }
    }

    /// The queues of the touched prices in `[lo, hi]`, in ascending price
    /// order: what a marketable bid crosses through, best ask first.
    pub closed spec fn levels_up(self, lo: Price, hi: Price) -> Seq<Seq<(Size, OrderId)>> {
        self.levels_up_from(0, lo, hi)
    }

    /// The queues of the touched prices in `[lo, hi]`, descending, scanning
    /// the price map from position `k` downward.
    spec fn levels_down_from(self, k: int, lo: Price, hi: Price) -> Seq<Seq<(Size, OrderId)>>
        decreases k + 1,
    {
        if k < 0 || k >= self.prices@.len() || self.prices@[k] < lo {
            Seq::empty()
        } else if self.prices@[k] > hi {
            self.levels_down_from(k - 1, lo, hi)
        } else {
            seq![self.queue_at(self.prices@[k])] + self.levels_down_from(k - 1, lo, hi)
        }
    }

    /// The queues of the touched prices in `[lo, hi]`, in descending price
    /// order: what a marketable ask crosses through, best bid first.
    pub closed spec fn levels_down(self, lo: Price, hi: Price) -> Seq<Seq<(Size, OrderId)>> {
        self.levels_down_from(self.prices@.len() - 1, lo, hi)
    }

    /// Prices below `lo` contribute no level: the ascending scan may start
    /// at the first position whose price reaches `lo`.
    proof fn lemma_levels_up_skip(self, k: int, lo: Price, hi: Price)
        requires
            lo <= hi,
            0 <= k <= self.prices@.len(),
            forall|j: int| 0 <= j < k ==> self.prices@[j] < lo,
        ensures
            self.levels_up_from(0, lo, hi) == self.levels_up_from(k, lo, hi),
            self.prices_up_from(0, lo, hi) == self.prices_up_from(k, lo, hi),
        decreases k,
    {
        if k > 0 {
            self.lemma_levels_up_skip(k - 1, lo, hi);
            assert(self.levels_up_from(k - 1, lo, hi) == self.levels_up_from(k, lo, hi));
            assert(self.prices_up_from(k - 1, lo, hi) == self.prices_up_from(k, lo, hi));
        }
    }

    /// Prices above `hi` contribute no level: the descending scan may start
    /// at the last position whose price does not exceed `hi`.
    proof fn lemma_levels_down_skip(self, k: int, lo: Price, hi: Price)
        requires
            lo <= hi,
            -1 <= k < self.prices@.len(),
            forall|j: int| k < j < self.prices@.len() ==> self.prices@[j] > hi,
        ensures
            self.levels_down_from(self.prices@.len() - 1, lo, hi) == self.levels_down_from(
                k,
                lo,
                hi,
            ),
            self.prices_down_from(self.prices@.len() - 1, lo, hi) == self.prices_down_from(
                k,
                lo,
                hi,
            ),
        decreases self.prices@.len() - k,
    {
        if k < self.prices@.len() - 1 {
            self.lemma_levels_down_skip(k + 1, lo, hi);
            assert(self.levels_down_from(k + 1, lo, hi) == self.levels_down_from(k, lo, hi));
            assert(self.prices_down_from(k + 1, lo, hi) == self.prices_down_from(k, lo, hi));
        }
    }

    /// Where the ascending scan skips nothing, it lists the map's prices
    /// position by position, up to the first price beyond `hi`.
    proof fn lemma_up_from_positions(self, k: int, lo: Price, hi: Price)
        requires
            self.wf_core(),
            0 <= k <= self.prices@.len(),
            forall|i: int| k <= i < self.prices@.len() ==> #[trigger] self.prices@[i] >= lo,
        ensures
            ({
                let ps = self.prices_up_from(k, lo, hi);
                &&& k + ps.len() <= self.prices@.len()
                &&& (forall|j: int|
                    0 <= j < ps.len() ==> (#[trigger] ps[j] == self.prices@[k + j]
                        && self.prices@[k + j] <= hi))
                &&& (k + ps.len() < self.prices@.len() ==> self.prices@[k + ps.len()] > hi)
            }),
        decreases self.prices@.len() - k,
    {
        if k < self.prices@.len() && self.prices@[k] <= hi {
            self.lemma_up_from_positions(k + 1, lo, hi);
            let ps = self.prices_up_from(k, lo, hi);
            let tail = self.prices_up_from(k + 1, lo, hi);
            assert(ps == seq![self.prices@[k]] + tail);
            assert forall|j: int|
                0 <= j < ps.len() implies #[trigger] ps[j] == self.prices@[k + j]
                && self.prices@[k + j] <= hi by {
                if j > 0 {
                    assert(ps[j] == tail[j - 1]);
                    assert(tail[j - 1] == self.prices@[k + 1 + (j - 1)]);
                    assert(self.prices@[k + 1 + (j - 1)] <= hi);
                }
            }
        }
    }

    /// Where the descending scan skips nothing, it lists the map's prices
    /// position by position, down to the first price below `lo`.
    proof fn lemma_down_from_positions(self, k: int, lo: Price, hi: Price)
        requires
            self.wf_core(),
            -1 <= k < self.prices@.len(),
            forall|i: int| 0 <= i <= k ==> #[trigger] self.prices@[i] <= hi,
        ensures
            ({
                let ps = self.prices_down_from(k, lo, hi);
                &&& ps.len() <= k + 1
                &&& (forall|j: int|
                    0 <= j < ps.len() ==> (#[trigger] ps[j] == self.prices@[k - j]
                        && self.prices@[k - j] >= lo))
                &&& (k - ps.len() >= 0 ==> self.prices@[k - ps.len()] < lo)
            }),
        decreases k + 1,
    {
        if k >= 0 && self.prices@[k] >= lo {
            self.lemma_down_from_positions(k - 1, lo, hi);
            let ps = self.prices_down_from(k, lo, hi);
            let tail = self.prices_down_from(k - 1, lo, hi);
            assert(ps == seq![self.prices@[k]] + tail);
            assert forall|j: int|
                0 <= j < ps.len() implies #[trigger] ps[j] == self.prices@[k - j]
                && self.prices@[k - j] >= lo by {
                if j > 0 {
                    assert(ps[j] == tail[j - 1]);
                    assert(tail[j - 1] == self.prices@[k - 1 - (j - 1)]);
                    assert(self.prices@[k - 1 - (j - 1)] >= lo);
                }
            }
        }
    }

    /// `p` is the first price at or above `from` holding a non-empty
    /// queue, or the "no ask" sentinel if there is none.
    pub open spec fn is_first_nonempty_at_or_above(self, from: Price, p: Price) -> bool {
        &&& from <= p
        &&& (p == Price::MAX || self.queue_at(p).len() > 0)
        &&& (forall|q: Price| from <= q < p ==> (#[trigger] self.queue_at(q)).len() == 0)
    }

    /// `p` is the first price at or below `from` holding a non-empty
    /// queue, or the "no bid" sentinel if there is none.
    pub open spec fn is_first_nonempty_at_or_below(self, from: Price, p: Price) -> bool {
        &&& p <= from
        &&& (p == 0 || self.queue_at(p).len() > 0)
        &&& (forall|q: Price| p < q <= from ==> (#[trigger] self.queue_at(q)).len() == 0)
    }

    /// The touched prices in `[lo, hi]`, ascending, scanning the price map
    /// from position `k` upward: the prices whose queues `levels_up_from`
    /// lists, in the same order.
    spec fn prices_up_from(self, k: int, lo: Price, hi: Price) -> Seq<Price>
        decreases self.prices@.len() - k,
    {
        if k < 0 || k >= self.prices@.len() || self.prices@[k] > hi {
            Seq::empty()
        } else if self.prices@[k] < lo {
            self.prices_up_from(k + 1, lo, hi)
        } else {
            seq![self.prices@[k]] + self.prices_up_from(k + 1, lo, hi)
        }
    }

    /// The touched prices in `[lo, hi]` in ascending order: the prices a
    /// marketable bid crosses, best ask first.
    pub closed spec fn prices_up(self, lo: Price, hi: Price) -> Seq<Price> {
        self.prices_up_from(0, lo, hi)
    }

    /// The touched prices in `[lo, hi]`, descending, scanning the price
    /// map from position `k` downward.
    spec fn prices_down_from(self, k: int, lo: Price, hi: Price) -> Seq<Price>
        decreases k + 1,
    {
        if k < 0 || k >= self.prices@.len() || self.prices@[k] < lo {
            Seq::empty()
        } else if self.prices@[k] > hi {
            self.prices_down_from(k - 1, lo, hi)
        } else {
            seq![self.prices@[k]] + self.prices_down_from(k - 1, lo, hi)
        }
    }

    /// The touched prices in `[lo, hi]` in descending order: the prices a
    /// marketable ask crosses, best bid first.
    pub closed spec fn prices_down(self, lo: Price, hi: Price) -> Seq<Price> {
        self.prices_down_from(self.prices@.len() - 1, lo, hi)
    }

    /// `levels_up_from` and `prices_up_from` walk the same positions.
    proof fn lemma_up_from_characterization(self, k: int, lo: Price, hi: Price)
        requires
            self.wf_core(),
            0 <= k,
        ensures
            self.prices_up_from(k, lo, hi).len() == self.levels_up_from(k, lo, hi).len(),
            forall|j: int|
                0 <= j < self.prices_up_from(k, lo, hi).len() ==> #[trigger] self.levels_up_from(
                    k,
                    lo,
                    hi,
                )[j] == self.queue_at(self.prices_up_from(k, lo, hi)[j]),
            forall|j: int|
                0 <= j < self.prices_up_from(k, lo, hi).len() ==> lo <= #[trigger] self.prices_up_from(
                    k,
                    lo,
                    hi,
                )[j] <= hi,
            forall|j1: int, j2: int|
                0 <= j1 < j2 < self.prices_up_from(k, lo, hi).len() ==> #[trigger] self.prices_up_from(
                    k,
                    lo,
                    hi,
                )[j1] < #[trigger] self.prices_up_from(k, lo, hi)[j2],
            forall|p: Price|
                lo <= p <= hi && (#[trigger] self.queue_at(p)).len() > 0 && (exists|i: int|
                    k <= i < self.prices@.len() && self.prices@[i] == p) ==> self.prices_up_from(
                    k,
                    lo,
                    hi,
                ).contains(p),
        decreases self.prices@.len() - k,
    {
        if k < 0 || k >= self.prices@.len() || self.prices@[k] > hi {
            assert forall|p: Price|
                lo <= p <= hi && (#[trigger] self.queue_at(p)).len() > 0 && (exists|i: int|
                    k <= i < self.prices@.len() && self.prices@[i] == p) implies self.prices_up_from(
                k,
                lo,
                hi,
            ).contains(p) by {
                let i = choose|i: int| k <= i < self.prices@.len() && self.prices@[i] == p;
                if k >= 0 && k < self.prices@.len() {
                    if i > k {
                        assert(self.prices@[k] < self.prices@[i]);
                    }
                }
                assert(false);
            }
        } else {
            self.lemma_up_from_characterization(k + 1, lo, hi);
            if self.prices@[k] < lo {
                assert forall|p: Price|
                    lo <= p <= hi && (#[trigger] self.queue_at(p)).len() > 0 && (exists|i: int|
                        k <= i < self.prices@.len() && self.prices@[i] == p)
                    implies self.prices_up_from(k, lo, hi).contains(p) by {
                    let i = choose|i: int| k <= i < self.prices@.len() && self.prices@[i] == p;
                    assert(i != k);
                    assert(self.prices_up_from(k + 1, lo, hi).contains(p));
                }
            } else {
                let ptail = self.prices_up_from(k + 1, lo, hi);
                let pall = self.prices_up_from(k, lo, hi);
                assert(pall == seq![self.prices@[k]] + ptail);
                assert forall|j1: int, j2: int|
                    0 <= j1 < j2 < pall.len() implies #[trigger] pall[j1]
                    < #[trigger] pall[j2] by {
                    if j1 == 0 {
                        assert(pall[j2] == ptail[j2 - 1]);
                        let q = ptail[j2 - 1];
                        // Every tail price sits at a position after `k`.
                        assert(ptail.contains(q) ==> true);
                        Self::lemma_up_from_members_above(self, k + 1, lo, hi, j2 - 1);
                    } else {
                        assert(pall[j1] == ptail[j1 - 1]);
                        assert(pall[j2] == ptail[j2 - 1]);
                    }
                }
                assert forall|p: Price|
                    lo <= p <= hi && (#[trigger] self.queue_at(p)).len() > 0 && (exists|i: int|
                        k <= i < self.prices@.len() && self.prices@[i] == p)
                    implies pall.contains(p) by {
                    let i = choose|i: int| k <= i < self.prices@.len() && self.prices@[i] == p;
                    if i == k {
                        assert(pall[0] == p);
                    } else {
                        assert(ptail.contains(p));
                        let j = choose|j: int| 0 <= j < ptail.len() && ptail[j] == p;
                        assert(pall[j + 1] == p);
                    }
                }
            }
        }
    }

    /// Every price listed by the ascending scan from `k + 1` is greater
    /// than the price at position `k`.
    proof fn lemma_up_from_members_above(self, k: int, lo: Price, hi: Price, j: int)
        requires
            self.wf_core(),
            0 <= j < self.prices_up_from(k, lo, hi).len(),
            1 <= k,
        ensures
            self.prices_up_from(k, lo, hi)[j] > self.prices@[k - 1],
        decreases self.prices@.len() - k,
    {
        if k < self.prices@.len() && self.prices@[k] <= hi {
            if self.prices@[k] < lo {
                self.lemma_up_from_members_above(k + 1, lo, hi, j);
                assert(self.prices_up_from(k + 1, lo, hi)[j] > self.prices@[k]);
            } else {
                if j > 0 {
                    self.lemma_up_from_members_above(k + 1, lo, hi, j - 1);
                    assert(self.prices_up_from(k + 1, lo, hi)[j - 1] > self.prices@[k]);
                }
            }
        }
    }

    /// `levels_down_from` and `prices_down_from` walk the same positions.
    proof fn lemma_down_from_characterization(self, k: int, lo: Price, hi: Price)
        requires
            self.wf_core(),
            k < self.prices@.len(),
        ensures
            self.prices_down_from(k, lo, hi).len() == self.levels_down_from(k, lo, hi).len(),
            forall|j: int|
                0 <= j < self.prices_down_from(k, lo, hi).len() ==> #[trigger] self.levels_down_from(
                    k,
                    lo,
                    hi,
                )[j] == self.queue_at(self.prices_down_from(k, lo, hi)[j]),
            forall|j: int|
                0 <= j < self.prices_down_from(k, lo, hi).len() ==> lo
                    <= #[trigger] self.prices_down_from(k, lo, hi)[j] <= hi,
            forall|j1: int, j2: int|
                0 <= j1 < j2 < self.prices_down_from(k, lo, hi).len()
                    ==> #[trigger] self.prices_down_from(k, lo, hi)[j1]
                    > #[trigger] self.prices_down_from(k, lo, hi)[j2],
            forall|p: Price|
                lo <= p <= hi && (#[trigger] self.queue_at(p)).len() > 0 && (exists|i: int|
                    0 <= i <= k && self.prices@[i] == p) ==> self.prices_down_from(
                    k,
                    lo,
                    hi,
                ).contains(p),
        decreases k + 1,
    {
        if k < 0 || self.prices@[k] < lo {
            assert forall|p: Price|
                lo <= p <= hi && (#[trigger] self.queue_at(p)).len() > 0 && (exists|i: int|
                    0 <= i <= k && self.prices@[i] == p) implies self.prices_down_from(
                k,
                lo,
                hi,
            ).contains(p) by {
                let i = choose|i: int| 0 <= i <= k && self.prices@[i] == p;
                if k >= 0 {
                    if i < k {
                        assert(self.prices@[i] < self.prices@[k]);
                    }
                }
                assert(false);
            }
        } else {
            self.lemma_down_from_characterization(k - 1, lo, hi);
            if self.prices@[k] > hi {
                assert forall|p: Price|
                    lo <= p <= hi && (#[trigger] self.queue_at(p)).len() > 0 && (exists|i: int|
                        0 <= i <= k && self.prices@[i] == p)
                    implies self.prices_down_from(k, lo, hi).contains(p) by {
                    let i = choose|i: int| 0 <= i <= k && self.prices@[i] == p;
                    assert(i != k);
                    assert(self.prices_down_from(k - 1, lo, hi).contains(p));
                }
            } else {
                let ptail = self.prices_down_from(k - 1, lo, hi);
                let pall = self.prices_down_from(k, lo, hi);
                assert(pall == seq![self.prices@[k]] + ptail);
                assert forall|j1: int, j2: int|
                    0 <= j1 < j2 < pall.len() implies #[trigger] pall[j1]
                    > #[trigger] pall[j2] by {
                    if j1 == 0 {
                        assert(pall[j2] == ptail[j2 - 1]);
                        Self::lemma_down_from_members_below(self, k - 1, lo, hi, j2 - 1);
                    } else {
                        assert(pall[j1] == ptail[j1 - 1]);
                        assert(pall[j2] == ptail[j2 - 1]);
                    }
                }
                assert forall|p: Price|
                    lo <= p <= hi && (#[trigger] self.queue_at(p)).len() > 0 && (exists|i: int|
                        0 <= i <= k && self.prices@[i] == p)
                    implies pall.contains(p) by {
                    let i = choose|i: int| 0 <= i <= k && self.prices@[i] == p;
                    if i == k {
                        assert(pall[0] == p);
                    } else {
                        assert(ptail.contains(p));
                        let j = choose|j: int| 0 <= j < ptail.len() && ptail[j] == p;
                        assert(pall[j + 1] == p);
                    }
                }
            }
        }
    }

    /// Every price listed by the descending scan from `k - 1` is smaller
    /// than the price at position `k`.
    proof fn lemma_down_from_members_below(self, k: int, lo: Price, hi: Price, j: int)
        requires
            self.wf_core(),
            0 <= j < self.prices_down_from(k, lo, hi).len(),
            k + 1 < self.prices@.len(),
        ensures
            self.prices_down_from(k, lo, hi)[j] < self.prices@[k + 1],
        decreases k + 1,
    {
        if k >= 0 && self.prices@[k] >= lo {
            if self.prices@[k] > hi {
                self.lemma_down_from_members_below(k - 1, lo, hi, j);
                assert(self.prices_down_from(k - 1, lo, hi)[j] < self.prices@[k]);
            } else {
                if j > 0 {
                    self.lemma_down_from_members_below(k - 1, lo, hi, j - 1);
                    assert(self.prices_down_from(k - 1, lo, hi)[j - 1] < self.prices@[k]);
                }
            }
        }
    }

    /// What a marketable bid crosses: `levels_up(lo, hi)` holds, ascending,
    /// the queue of each touched price in `[lo, hi]`, and `prices_up` those
    /// prices; every price in the range with a non-empty queue is listed.
    pub proof fn lemma_levels_up_characterization(self, lo: Price, hi: Price)
        requires
            self.wf(),
        ensures
            self.prices_up(lo, hi).len() == self.levels_up(lo, hi).len(),
            forall|j: int|
                0 <= j < self.prices_up(lo, hi).len() ==> #[trigger] self.levels_up(lo, hi)[j]
                    == self.queue_at(self.prices_up(lo, hi)[j]),
            forall|j: int|
                0 <= j < self.prices_up(lo, hi).len() ==> lo <= #[trigger] self.prices_up(
                    lo,
                    hi,
                )[j] <= hi,
            forall|j1: int, j2: int|
                0 <= j1 < j2 < self.prices_up(lo, hi).len() ==> #[trigger] self.prices_up(
                    lo,
                    hi,
                )[j1] < #[trigger] self.prices_up(lo, hi)[j2],
            forall|p: Price|
                lo <= p <= hi && (#[trigger] self.queue_at(p)).len() > 0 ==> self.prices_up(
                    lo,
                    hi,
                ).contains(p),
    {
        self.lemma_up_from_characterization(0, lo, hi);
        assert forall|p: Price|
            lo <= p <= hi && (#[trigger] self.queue_at(p)).len() > 0 implies self.prices_up(
            lo,
            hi,
        ).contains(p) by {
            assert(self.chains@.dom().contains(p));
            assert(self.touched(p));
        }
    }

    /// What a marketable ask crosses: `levels_down(lo, hi)` holds,
    /// descending, the queue of each touched price in `[lo, hi]`, and
    /// `prices_down` those prices; every price in the range with a
    /// non-empty queue is listed.
    pub proof fn lemma_levels_down_characterization(self, lo: Price, hi: Price)
        requires
            self.wf(),
        ensures
            self.prices_down(lo, hi).len() == self.levels_down(lo, hi).len(),
            forall|j: int|
                0 <= j < self.prices_down(lo, hi).len() ==> #[trigger] self.levels_down(lo, hi)[j]
                    == self.queue_at(self.prices_down(lo, hi)[j]),
            forall|j: int|
                0 <= j < self.prices_down(lo, hi).len() ==> lo <= #[trigger] self.prices_down(
                    lo,
                    hi,
                )[j] <= hi,
            forall|j1: int, j2: int|
                0 <= j1 < j2 < self.prices_down(lo, hi).len() ==> #[trigger] self.prices_down(
                    lo,
                    hi,
                )[j1] > #[trigger] self.prices_down(lo, hi)[j2],
            forall|p: Price|
                lo <= p <= hi && (#[trigger] self.queue_at(p)).len() > 0 ==> self.prices_down(
                    lo,
                    hi,
                ).contains(p),
    {
        if self.prices@.len() > 0 {
            self.lemma_down_from_characterization(self.prices@.len() - 1, lo, hi);
        }
        assert forall|p: Price|
            lo <= p <= hi && (#[trigger] self.queue_at(p)).len() > 0 implies self.prices_down(
            lo,
            hi,
        ).contains(p) by {
            assert(self.chains@.dom().contains(p));
            assert(self.touched(p));
        }
    }

    /// Scan the price map upward from position `k0` and return the first
    /// position holding a non-empty limit, or the map's length if none.
    fn first_nonempty_at_or_above(&self, k0: usize) -> (k: usize)
        requires
            self.wf_core(),
            k0 <= self.prices@.len(),
        ensures
            k0 <= k <= self.prices@.len(),
            forall|j: int| k0 <= j < k ==> self.queue_at(#[trigger] self.prices@[j]).len() == 0,
            k < self.prices@.len() ==> self.queue_at(self.prices@[k as int]).len() > 0,
    {
        let n = self.prices.len();
        let mut k = k0;
        while k < n && self.limits[k].link.is_none()
            invariant
                self.wf_core(),
                k0 <= k <= n,
                n == self.prices@.len(),
                forall|j: int|
                    k0 <= j < k ==> self.queue_at(#[trigger] self.prices@[j]).len() == 0,
            decreases n - k,
        {
            proof {
                assert(self.limit_ok(k as int));
            }
            k = k + 1;
        }
        proof {
            if k < n {
                assert(self.limit_ok(k as int));
            }
        }
        k
    }

    /// Scan the price map downward from position `k0` and return the first
    /// position holding a non-empty limit, or `None` if none.
    fn first_nonempty_at_or_below(&self, k0: usize) -> (k: Option<usize>)
        requires
            self.wf_core(),
            k0 < self.prices@.len(),
        ensures
            match k {
                Some(k) => {
                    &&& k <= k0
                    &&& (forall|j: int|
                        k < j <= k0 ==> self.queue_at(#[trigger] self.prices@[j]).len() == 0)
                    &&& self.queue_at(self.prices@[k as int]).len() > 0
                },
                None => forall|j: int|
                    0 <= j <= k0 ==> self.queue_at(#[trigger] self.prices@[j]).len() == 0,
            },
    {
        let mut k = k0;
        loop
            invariant
                self.wf_core(),
                0 <= k <= k0 < self.prices@.len(),
                forall|j: int|
                    k < j <= k0 ==> self.queue_at(#[trigger] self.prices@[j]).len() == 0,
            ensures
                (forall|j: int|
                    k < j <= k0 ==> self.queue_at(#[trigger] self.prices@[j]).len() == 0),
                k <= k0,
                self.limits@[k as int].link is Some || (forall|j: int|
                    0 <= j <= k0 ==> self.queue_at(#[trigger] self.prices@[j]).len() == 0),
            decreases k,
        {
            proof {
                assert(self.limit_ok(k as int));
            }
            if self.limits[k].link.is_some() {
                break;
            }
            if k == 0 {
                break;
            }
            k = k - 1;
        }
        proof {
            assert(self.limit_ok(k as int));
        }
        if self.limits[k].link.is_some() {
            Some(k)
        } else {
            None
        }
    }

    /// Two books with the same price map, limits, arena, chains and next
    /// identifier have the same structure and queues, whatever their
    /// cached best limits.
    proof fn lemma_same_book(pre: Self, post: Self)
        requires
            pre.wf_core(),
            post.prices@ == pre.prices@,
            post.limits@ == pre.limits@,
            post.entries == pre.entries,
            post.chains@ == pre.chains@,
            post.max_order_id == pre.max_order_id,
        ensures
            post.wf_core(),
            forall|p: Price| post.queue_at(p) == pre.queue_at(p),
            forall|p: Price| post.chain_at(p) == pre.chain_at(p),
    {
        assert forall|p: Price| post.chain_at(p) == pre.chain_at(p) by {}
        assert forall|p: Price| post.queue_at(p) == pre.queue_at(p) by {
            assert(post.queue_at(p) =~= pre.queue_at(p));
        }
        assert forall|p: Price| #[trigger] post.chain_ok(p) by {
            assert(pre.chain_ok(p));
        }
        assert forall|k2: int| 0 <= k2 < post.prices@.len() implies post.limit_ok(k2) by {
            assert(pre.limit_ok(k2));
        }
        assert forall|p: Price| post.chains@.dom().contains(p) implies #[trigger] post.touched(
            p,
        ) by {
            assert(pre.touched(p));
            let j = choose|j: int| 0 <= j < pre.prices@.len() && pre.prices@[j] == p;
            assert(post.prices@[j] == p);
        }
        assert(post.chains_disjoint()) by {
            assert forall|p1: Price, j1: int, p2: Price, j2: int|
                0 <= j1 < post.chain_at(p1).len() && 0 <= j2 < post.chain_at(p2).len() && (p1 != p2
                    || j1 != j2) implies #[trigger] post.chain_at(p1)[j1]
                != #[trigger] post.chain_at(p2)[j2] by {
                assert(pre.chains_disjoint());
                assert(pre.chain_at(p1)[j1] != pre.chain_at(p2)[j2]);
            }
        }
        assert forall|p1: Price, j1: int, p2: Price, j2: int|
            0 <= j1 < post.chain_at(p1).len() && 0 <= j2 < post.chain_at(p2).len() && (p1 != p2
                || j1 != j2) implies (#[trigger] post.entry(post.chain_at(p1)[j1])).1 != (
        #[trigger] post.entry(post.chain_at(p2)[j2])).1 by {
            assert(pre.entry(pre.chain_at(p1)[j1]).1 != pre.entry(pre.chain_at(p2)[j2]).1);
        }
        assert forall|p: Price| queue_sum(#[trigger] post.queue_at(p)) <= Size::MAX by {
            assert(post.queue_at(p) == pre.queue_at(p));
        }
    }

    /// Cross a marketable bid through the ask side in ascending price
    /// order, repair the best ask, and insert any unfilled remainder at
    /// the order's price, which then becomes the best bid.
    #[verifier::rlimit(100)]
    fn limit_bid_cross(&mut self, order: Order) -> (r: Option<OrderId>)
        requires
            old(self).wf(),
            order.valid(),
            order.side == Side::Bid,
            order.price >= old(self).spec_best_ask(),
            old(self).spec_max_order_id() < OrderId::MAX,
        ensures
            final(self).wf(),
            ({
                let rem = consume_levels(
                    old(self).levels_up(old(self).spec_best_ask(), order.price),
                    order.size as int,
                ).1;
                &&& (forall|p: Price|
                    p < old(self).spec_best_ask() || p > order.price ==> final(self).queue_at(p)
                        == old(self).queue_at(p))
                &&& (rem > 0 ==> {
                    &&& r == Some(old(self).spec_max_order_id())
                    &&& final(self).spec_max_order_id() == old(self).spec_max_order_id() + 1
                    &&& final(self).queue_at(order.price) == seq![
                        ((rem as Size), old(self).spec_max_order_id()),
                    ]
                    &&& (forall|p: Price|
                        old(self).spec_best_ask() <= p < order.price ==> (
                        #[trigger] final(self).queue_at(p)).len() == 0)
                    &&& final(self).spec_best_bid() == order.price
                })
                &&& (rem == 0 ==> {
                    &&& r is None
                    &&& final(self).spec_max_order_id() == old(self).spec_max_order_id()
                    &&& final(self).spec_best_bid() == old(self).spec_best_bid()
                    &&& (forall|p: Price|
                        old(self).spec_best_ask() <= p <= order.price ==> fifo_remnant(
                            old(self).queue_at(p),
                            #[trigger] final(self).queue_at(p),
                        ))
                    &&& final(self).is_first_nonempty_at_or_above(
                        old(self).spec_best_ask(),
                        final(self).spec_best_ask(),
                    )
                })
                &&& (rem > 0 ==> final(self).is_first_nonempty_at_or_above(
                    (order.price + 1) as Price,
                    final(self).spec_best_ask(),
                ))
                &&& ({
                    let ps = old(self).prices_up(old(self).spec_best_ask(), order.price);
                    let qs = consume_levels(
                        old(self).levels_up(old(self).spec_best_ask(), order.price),
                        order.size as int,
                    ).0;
                    forall|j: int|
                        0 <= j < ps.len() && (rem == 0 || #[trigger] ps[j] != order.price)
                            ==> final(self).queue_at(ps[j]) == qs[j]
                })
            }),
    {
        let ghost pre = *old(self);
        let ghost lo = pre.best_ask;
        let hi = order.price;
        let ghost target: int = consume_levels(
            pre.levels_up(lo, hi),
            order.size as int,
        ).1;
        let n = self.prices.len();
        let k0 = self.lower_bound(self.best_ask);
        let ghost mut done: Seq<Seq<(Size, OrderId)>> = Seq::empty();
        proof {
            assert(lo <= hi);
            pre.lemma_levels_up_skip(k0 as int, lo, hi);
            lemma_consume_levels_rem(pre.levels_up(lo, hi), order.size as int);
            assert(consume_levels(pre.levels_up_from(k0 as int, lo, hi), order.size as int).0
                =~= done + consume_levels(
                pre.levels_up_from(k0 as int, lo, hi),
                order.size as int,
            ).0);
        }
        let mut k = k0;
        let mut rem = order.size;
        while k < n && self.prices[k] <= hi && rem > 0
            invariant
                self.wf_core(),
                order.valid(),
                hi == order.price,
                k0 <= k <= n,
                n == self.prices@.len(),
                self.prices@ == pre.prices@,
                self.best_bid == pre.best_bid,
                self.best_ask == pre.best_ask,
                self.max_order_id == pre.max_order_id,
                forall|j: int| 0 <= j < k0 ==> pre.prices@[j] < lo,
                k0 < n ==> pre.prices@[k0 as int] >= lo,
                forall|j: int|
                    k <= j < n ==> self.queue_at(#[trigger] self.prices@[j]) == pre.queue_at(
                        self.prices@[j],
                    ),
                forall|p: Price| p < lo || p > hi ==> self.queue_at(p) == pre.queue_at(p),
                rem > 0 ==> (forall|j: int|
                    k0 <= j < k ==> self.queue_at(#[trigger] self.prices@[j]).len() == 0),
                forall|j: int|
                    k0 <= j < k ==> fifo_remnant(
                        pre.queue_at(#[trigger] self.prices@[j]),
                        self.queue_at(self.prices@[j]),
                    ),
                consume_levels(pre.levels_up_from(k as int, lo, hi), rem as int).1 == target,
                0 <= target <= rem,
                done.len() == k - k0,
                consume_levels(pre.levels_up_from(k0 as int, lo, hi), order.size as int).0 == done
                    + consume_levels(pre.levels_up_from(k as int, lo, hi), rem as int).0,
                forall|j: int|
                    k0 <= j < k ==> self.queue_at(#[trigger] self.prices@[j]) == done[j - k0],
                forall|j: int| k0 <= j < k ==> pre.prices@[j] <= hi,
            decreases n - k,
        {
            let ghost cur = *self;
            let ghost p = self.prices@[k as int];
            proof {
                assert(p >= pre.prices@[k0 as int]);
                assert(p >= lo);
                assert(cur.queue_at(p) == pre.queue_at(p));
                assert(pre.levels_up_from(k as int, lo, hi) == seq![pre.queue_at(p)]
                    + pre.levels_up_from(k as int + 1, lo, hi));
                lemma_consume_levels_cons(
                    pre.queue_at(p),
                    pre.levels_up_from(k as int + 1, lo, hi),
                    rem as int,
                );
                lemma_consume_queue_rem(pre.queue_at(p), rem as int);
            }
            let new_rem = self.consume_at(k, rem);
            proof {
                assert(self.queue_at(p) == consume_queue(pre.queue_at(p), rem as int).0);
                assert(new_rem as int == consume_queue(pre.queue_at(p), rem as int).1);
                if new_rem > 0 {
                    lemma_consume_queue_drain(pre.queue_at(p), rem as int);
                    assert(self.queue_at(p).len() == 0);
                    assert forall|j: int|
                        k0 <= j < k + 1 implies self.queue_at(
                        #[trigger] self.prices@[j]).len() == 0 by {
                        if j < k {
                            assert(self.prices@[j] != p);
                            assert(self.queue_at(self.prices@[j]) == cur.queue_at(
                                self.prices@[j],
                            ));
                            assert(cur.queue_at(cur.prices@[j]).len() == 0);
                        }
                    }
                }
                assert forall|j: int|
                    k0 <= j < k + 1 implies fifo_remnant(
                    pre.queue_at(#[trigger] self.prices@[j]),
                    self.queue_at(self.prices@[j]),
                ) by {
                    if j < k {
                        assert(self.prices@[j] != p);
                        assert(self.queue_at(self.prices@[j]) == cur.queue_at(self.prices@[j]));
                        assert(fifo_remnant(
                            pre.queue_at(cur.prices@[j]),
                            cur.queue_at(cur.prices@[j]),
                        ));
                    } else {
                        assert(0 <= rem as int && self.queue_at(self.prices@[j]) == consume_queue(
                            pre.queue_at(self.prices@[j]),
                            rem as int,
                        ).0);
                    }
                }
                lemma_consume_levels_rem(
                    pre.levels_up_from(k as int + 1, lo, hi),
                    new_rem as int,
                );
                let x = consume_queue(pre.queue_at(p), rem as int).0;
                done = done.push(x);
                assert(consume_levels(pre.levels_up_from(k0 as int, lo, hi), order.size as int).0
                    =~= done + consume_levels(
                    pre.levels_up_from(k as int + 1, lo, hi),
                    new_rem as int,
                ).0);
                assert forall|j: int|
                    k0 <= j < k + 1 implies self.queue_at(#[trigger] self.prices@[j]) == done[j
                    - k0] by {
                    if j < k {
                        assert(self.prices@[j] != p);
                        assert(self.queue_at(self.prices@[j]) == cur.queue_at(self.prices@[j]));
                        assert(cur.queue_at(cur.prices@[j]) == done[j - k0]);
                    }
                }
            }
            rem = new_rem;
            k = k + 1;
        }
        proof {
            if k == n || self.prices@[k as int] > hi {
                assert(pre.levels_up_from(k as int, lo, hi) == Seq::<
                    Seq<(Size, OrderId)>,
                >::empty());
                assert(target == rem as int);
            } else {
                assert(rem == 0);
                lemma_consume_levels_rem(pre.levels_up_from(k as int, lo, hi), 0);
                assert(target == 0);
            }
            assert(target == rem as int);
            // The final queue of each crossed price is the matching
            // component of the crossing fold.
            assert forall|i: int|
                k0 <= i < n implies #[trigger] pre.prices@[i] >= lo by {
                if i > k0 {
                    assert(pre.prices@[k0 as int] < pre.prices@[i]);
                }
            }
            pre.lemma_up_from_positions(k0 as int, lo, hi);
            pre.lemma_up_from_characterization(k0 as int, lo, hi);
            pre.lemma_up_from_characterization(k as int, lo, hi);
            let ps = pre.prices_up_from(k0 as int, lo, hi);
            let fold0 = consume_levels(pre.levels_up_from(k0 as int, lo, hi), order.size as int);
            if k == n || self.prices@[k as int] > hi {
                assert(ps.len() == k - k0) by {
                    if ps.len() > k - k0 {
                        assert(ps[k - k0] == pre.prices@[k as int]);
                        assert(pre.prices@[k0 + (k - k0)] <= hi);
                    }
                    if ps.len() < k - k0 {
                        assert(pre.prices@[k0 + ps.len()] > hi);
                        assert(pre.prices@[k0 + ps.len()] <= hi);
                    }
                }
                assert(fold0.0 =~= done);
                assert forall|j: int|
                    0 <= j < ps.len() implies self.queue_at(#[trigger] ps[j]) == fold0.0[j] by {
                    assert(ps[j] == pre.prices@[k0 + j]);
                    assert(self.queue_at(self.prices@[k0 + j]) == done[j]);
                }
            } else {
                assert(rem == 0);
                let tailp = pre.prices_up_from(k as int, lo, hi);
                let taill = pre.levels_up_from(k as int, lo, hi);
                pre.lemma_up_from_positions(k as int, lo, hi);
                assert forall|i: int|
                    0 <= i < taill.len() && (#[trigger] taill[i]).len() > 0 implies taill[i][0].0
                    > 0 by {
                    assert(taill[i] == pre.queue_at(tailp[i]));
                    assert(pre.chain_ok(tailp[i]));
                }
                lemma_consume_levels_zero(taill);
                assert(fold0.0 =~= done + taill);
                assert(ps.len() == (k - k0) + tailp.len()) by {
                    lemma_consume_levels_len(taill, 0);
                    lemma_consume_levels_len(
                        pre.levels_up_from(k0 as int, lo, hi),
                        order.size as int,
                    );
                }
                assert forall|j: int|
                    0 <= j < ps.len() implies self.queue_at(#[trigger] ps[j]) == fold0.0[j] by {
                    assert(ps[j] == pre.prices@[k0 + j]);
                    if j < k - k0 {
                        assert(self.queue_at(self.prices@[k0 + j]) == done[j]);
                    } else {
                        assert(fold0.0[j] == taill[j - (k - k0)]);
                        assert(taill[j - (k - k0)] == pre.queue_at(tailp[j - (k - k0)]));
                        assert(tailp[j - (k - k0)] == pre.prices@[k + (j - (k - k0))]);
                        assert(self.queue_at(self.prices@[k0 + j]) == pre.queue_at(
                            self.prices@[k0 + j],
                        ));
                    }
                }
            }
        }
        // Repair the best ask: the first non-empty limit at or above the
        // old best ask.
        let k2 = self.first_nonempty_at_or_above(k0);
        let ghost mid0 = *self;
        if k2 < n {
            self.best_ask = self.prices[k2];
        } else {
            self.best_ask = Price::MAX;
        }
        let ghost mid = *self;
        proof {
            Self::lemma_same_book(mid0, mid);
            // Every price in the open interval (best_bid, best_ask) is
            // empty: below the old best ask by the old book's invariant,
            // above it by the scan.
            assert forall|p: Price|
                mid.best_bid < p < mid.best_ask implies (#[trigger] mid.queue_at(p)).len()
                == 0 by {
                if p < lo {
                    assert(mid.queue_at(p) == mid0.queue_at(p));
                    assert(mid0.queue_at(p) == pre.queue_at(p));
                } else {
                    if mid.chains@.dom().contains(p) {
                        assert(mid.touched(p));
                        let j = choose|j: int|
                            0 <= j < mid.prices@.len() && mid.prices@[j] == p;
                        if j < k0 {
                            assert(pre.prices@[j] < lo);
                        }
                        assert(j >= k0);
                        if k2 < n {
                            assert(p < mid0.prices@[k2 as int]);
                            assert(j < k2);
                        } else {
                            assert(j < k2);
                        }
                        assert(mid0.queue_at(mid0.prices@[j]).len() == 0);
                        assert(mid.queue_at(p) == mid0.queue_at(p));
                    } else {
                        assert(mid.queue_at(p).len() == 0);
                    }
                }
            }
            assert(mid.best_bid < mid.best_ask) by {
                if k2 < n {
                    assert(mid.prices@[k2 as int] >= mid.prices@[k0 as int]);
                }
            }
            if mid.best_bid != 0 {
                assert(mid.best_bid < lo);
                assert(mid.queue_at(mid.best_bid) == mid0.queue_at(mid.best_bid));
                assert(mid0.queue_at(mid.best_bid) == pre.queue_at(mid.best_bid));
            }
            if mid.best_ask != Price::MAX {
                assert(k2 < n);
                assert(mid.queue_at(mid.best_ask) == mid0.queue_at(mid0.prices@[k2 as int]));
            }
            assert(mid.wf());
        }
        if rem > 0 {
            proof {
                // The whole crossed range is drained, so the remainder is
                // not marketable and rests at a fresh, empty price.
                assert forall|p: Price|
                    lo <= p <= hi implies (#[trigger] mid.queue_at(p)).len() == 0 by {
                    if mid.chains@.dom().contains(p) {
                        assert(mid.touched(p));
                        let j = choose|j: int|
                            0 <= j < mid.prices@.len() && mid.prices@[j] == p;
                        assert(j >= k0);
                        assert(j < k);
                        assert(mid.queue_at(mid.prices@[j]).len() == 0);
                    }
                }
                assert(mid.best_ask > hi) by {
                    if k2 < n {
                        assert(mid.queue_at(mid.prices@[k2 as int]).len() > 0);
                        if mid.prices@[k2 as int] <= hi {
                            assert(mid.queue_at(mid.prices@[k2 as int]).len() == 0);
                        }
                    }
                }
                assert(queue_sum(mid.queue_at(order.price)) == 0);
            }
            let id = self.insert_order(Order { price: order.price, size: rem, side: Side::Bid });
            proof {
                assert(final(self).queue_at(order.price) =~= seq![((rem as Size), id)]);
                assert forall|p: Price|
                    p < lo || p > hi implies final(self).queue_at(p) == pre.queue_at(p) by {
                    assert(p != order.price);
                    assert(final(self).queue_at(p) == mid.queue_at(p));
                }
                assert forall|p: Price|
                    lo <= p < order.price implies (#[trigger] final(self).queue_at(p)).len()
                    == 0 by {
                    assert(final(self).queue_at(p) == mid.queue_at(p));
                }
                assert(final(self).is_first_nonempty_at_or_above(
                    (order.price + 1) as Price,
                    final(self).spec_best_ask(),
                )) by {
                    assert(final(self).spec_best_ask() == mid.best_ask);
                    if mid.best_ask != Price::MAX {
                        assert(final(self).queue_at(mid.best_ask) == mid.queue_at(mid.best_ask));
                    }
                    assert forall|q: Price|
                        order.price + 1 <= q < final(self).spec_best_ask() implies (
                    #[trigger] final(self).queue_at(q)).len() == 0 by {}
                }
                let ps = pre.prices_up_from(k0 as int, lo, hi);
                assert forall|j: int|
                    0 <= j < ps.len() && #[trigger] ps[j] != order.price implies final(self).queue_at(ps[j]) == consume_levels(
                    pre.levels_up_from(k0 as int, lo, hi),
                    order.size as int,
                ).0[j] by {
                    assert(mid.queue_at(ps[j]) == mid0.queue_at(ps[j]));
                    assert(final(self).queue_at(ps[j]) == mid.queue_at(ps[j]));
                }
            }
            Some(id)
        } else {
            proof {
                assert forall|p: Price|
                    lo <= p <= hi implies fifo_remnant(
                    pre.queue_at(p),
                    #[trigger] mid.queue_at(p),
                ) by {
                    if mid.chains@.dom().contains(p) {
                        assert(mid.touched(p));
                        let j = choose|j: int|
                            0 <= j < mid.prices@.len() && mid.prices@[j] == p;
                        if j < k0 {
                            assert(pre.prices@[j] < lo);
                        }
                        assert(j >= k0);
                        if j < k {
                            assert(mid.queue_at(p) == mid0.queue_at(p));
                            assert(fifo_remnant(
                                pre.queue_at(mid0.prices@[j]),
                                mid0.queue_at(mid0.prices@[j]),
                            ));
                        } else {
                            assert(mid.queue_at(p) == mid0.queue_at(p));
                            assert(mid0.queue_at(mid0.prices@[j]) == pre.queue_at(
                                mid0.prices@[j],
                            ));
                            assert(pre.chain_ok(p));
                            lemma_consume_queue_zero(pre.queue_at(p));
                            assert(mid.queue_at(p) == consume_queue(pre.queue_at(p), 0).0);
                        }
                    } else {
                        if pre.touched(p) {
                            let j = choose|j: int|
                                0 <= j < pre.prices@.len() && pre.prices@[j] == p;
                            assert(mid.prices@[j] == p);
                            assert(mid.limit_ok(j));
                            assert(false);
                        }
                        assert(!pre.chains@.dom().contains(p));
                        assert(mid.queue_at(p) =~= pre.queue_at(p));
                        assert(pre.chain_ok(p));
                        lemma_consume_queue_zero(pre.queue_at(p));
                        assert(mid.queue_at(p) == consume_queue(pre.queue_at(p), 0).0);
                    }
                }
                assert(mid.is_first_nonempty_at_or_above(lo, mid.best_ask)) by {
                    if k2 < n {
                        assert(mid.best_ask == mid0.prices@[k2 as int]);
                        assert(mid0.prices@[k2 as int] >= mid0.prices@[k0 as int]);
                    }
                    assert forall|q: Price|
                        lo <= q < mid.best_ask implies (#[trigger] mid.queue_at(q)).len()
                        == 0 by {
                        assert(mid.best_bid < lo);
                    }
                }
                let ps = pre.prices_up_from(k0 as int, lo, hi);
                assert forall|j: int|
                    0 <= j < ps.len() implies final(self).queue_at(#[trigger] ps[j])
                    == consume_levels(
                    pre.levels_up_from(k0 as int, lo, hi),
                    order.size as int,
                ).0[j] by {
                    assert(mid.queue_at(ps[j]) == mid0.queue_at(ps[j]));
                }
            }
            None
        }
    }

    /// Cross a marketable ask through the bid side in descending price
    /// order, repair the best bid, and insert any unfilled remainder at
    /// the order's price, which then becomes the best ask.
    #[verifier::rlimit(100)]
    fn limit_ask_cross(&mut self, order: Order) -> (r: Option<OrderId>)
        requires
            old(self).wf(),
            order.valid(),
            order.side == Side::Ask,
            order.price <= old(self).spec_best_bid(),
            old(self).spec_max_order_id() < OrderId::MAX,
        ensures
            final(self).wf(),
            ({
                let rem = consume_levels(
                    old(self).levels_down(order.price, old(self).spec_best_bid()),
                    order.size as int,
                ).1;
                &&& (forall|p: Price|
                    p < order.price || p > old(self).spec_best_bid() ==> final(self).queue_at(p)
                        == old(self).queue_at(p))
                &&& (rem > 0 ==> {
                    &&& r == Some(old(self).spec_max_order_id())
                    &&& final(self).spec_max_order_id() == old(self).spec_max_order_id() + 1
                    &&& final(self).queue_at(order.price) == seq![
                        ((rem as Size), old(self).spec_max_order_id()),
                    ]
                    &&& (forall|p: Price|
                        order.price < p <= old(self).spec_best_bid() ==> (
                        #[trigger] final(self).queue_at(p)).len() == 0)
                    &&& final(self).spec_best_ask() == order.price
                })
                &&& (rem == 0 ==> {
                    &&& r is None
                    &&& final(self).spec_max_order_id() == old(self).spec_max_order_id()
                    &&& final(self).spec_best_ask() == old(self).spec_best_ask()
                    &&& (forall|p: Price|
                        order.price <= p <= old(self).spec_best_bid() ==> fifo_remnant(
                            old(self).queue_at(p),
                            #[trigger] final(self).queue_at(p),
                        ))
                    &&& final(self).is_first_nonempty_at_or_below(
                        old(self).spec_best_bid(),
                        final(self).spec_best_bid(),
                    )
                })
                &&& (rem > 0 ==> final(self).is_first_nonempty_at_or_below(
                    (order.price - 1) as Price,
                    final(self).spec_best_bid(),
                ))
                &&& ({
                    let ps = old(self).prices_down(order.price, old(self).spec_best_bid());
                    let qs = consume_levels(
                        old(self).levels_down(order.price, old(self).spec_best_bid()),
                        order.size as int,
                    ).0;
                    forall|j: int|
                        0 <= j < ps.len() && (rem == 0 || #[trigger] ps[j] != order.price)
                            ==> final(self).queue_at(ps[j]) == qs[j]
                })
            }),
    {
        let ghost pre = *old(self);
        let lo = order.price;
        let ghost hi = pre.best_bid;
        let ghost target: int = consume_levels(
            pre.levels_down(lo, hi),
            order.size as int,
        ).1;
        let n = self.prices.len();
        proof {
            assert(pre.best_bid != 0);
            assert(pre.queue_at(pre.best_bid).len() > 0);
            assert(pre.chains@.dom().contains(pre.best_bid) || pre.chain_at(
                pre.best_bid,
            ).len() == 0);
            assert(pre.touched(pre.best_bid));
        }
        let maybe_k0 = self.find(self.best_bid);
        let k0 = match maybe_k0 {
            Some(k0) => k0,
            None => {
                proof {
                    assert(false);
                }
                0
            },
        };
        let ghost mut done: Seq<Seq<(Size, OrderId)>> = Seq::empty();
        proof {
            assert(lo <= hi);
            assert forall|j: int| k0 < j < n implies pre.prices@[j] > hi by {}
            pre.lemma_levels_down_skip(k0 as int, lo, hi);
            lemma_consume_levels_rem(pre.levels_down(lo, hi), order.size as int);
            assert(consume_levels(pre.levels_down_from(k0 as int, lo, hi), order.size as int).0
                =~= done + consume_levels(
                pre.levels_down_from(k0 as int, lo, hi),
                order.size as int,
            ).0);
        }
        let mut k = k0;
        let mut more = true;
        let ghost kk: int = k0 as int;
        let mut rem = order.size;
        while more && rem > 0 && self.prices[k] >= lo
            invariant
                self.wf_core(),
                order.valid(),
                lo == order.price,
                hi == pre.best_bid,
                k0 < n,
                n == self.prices@.len(),
                self.prices@ == pre.prices@,
                pre.prices@[k0 as int] == hi,
                self.best_bid == pre.best_bid,
                self.best_ask == pre.best_ask,
                self.max_order_id == pre.max_order_id,
                kk == (if more {
                    k as int
                } else {
                    -1
                }),
                more ==> k <= k0,
                !more ==> k == 0,
                forall|j: int|
                    0 <= j <= kk ==> self.queue_at(#[trigger] self.prices@[j]) == pre.queue_at(
                        self.prices@[j],
                    ),
                forall|p: Price| p < lo || p > hi ==> self.queue_at(p) == pre.queue_at(p),
                rem > 0 ==> (forall|j: int|
                    kk < j <= k0 ==> self.queue_at(#[trigger] self.prices@[j]).len() == 0),
                forall|j: int|
                    kk < j <= k0 ==> fifo_remnant(
                        pre.queue_at(#[trigger] self.prices@[j]),
                        self.queue_at(self.prices@[j]),
                    ),
                consume_levels(pre.levels_down_from(kk, lo, hi), rem as int).1 == target,
                0 <= target <= rem,
                done.len() == k0 - kk,
                consume_levels(pre.levels_down_from(k0 as int, lo, hi), order.size as int).0
                    == done + consume_levels(pre.levels_down_from(kk, lo, hi), rem as int).0,
                forall|j: int|
                    kk < j <= k0 ==> self.queue_at(#[trigger] self.prices@[j]) == done[k0 - j],
                forall|j: int| kk < j <= k0 ==> pre.prices@[j] >= lo,
            decreases kk + 1,
        {
            let ghost cur = *self;
            let ghost p = self.prices@[k as int];
            proof {
                assert(p <= hi);
                assert(p >= lo);
                assert(cur.queue_at(p) == pre.queue_at(p));
                assert(pre.levels_down_from(kk, lo, hi) == seq![pre.queue_at(p)]
                    + pre.levels_down_from(kk - 1, lo, hi));
                lemma_consume_levels_cons(
                    pre.queue_at(p),
                    pre.levels_down_from(kk - 1, lo, hi),
                    rem as int,
                );
                lemma_consume_queue_rem(pre.queue_at(p), rem as int);
            }
            let new_rem = self.consume_at(k, rem);
            proof {
                assert(self.queue_at(p) == consume_queue(pre.queue_at(p), rem as int).0);
                assert(new_rem as int == consume_queue(pre.queue_at(p), rem as int).1);
                if new_rem > 0 {
                    lemma_consume_queue_drain(pre.queue_at(p), rem as int);
                    assert(self.queue_at(p).len() == 0);
                    assert forall|j: int|
                        kk - 1 < j <= k0 implies self.queue_at(
                        #[trigger] self.prices@[j]).len() == 0 by {
                        if j > kk {
                            assert(self.prices@[j] != p);
                            assert(self.queue_at(self.prices@[j]) == cur.queue_at(
                                self.prices@[j],
                            ));
                            assert(cur.queue_at(cur.prices@[j]).len() == 0);
                        }
                    }
                }
                assert forall|j: int|
                    kk - 1 < j <= k0 implies fifo_remnant(
                    pre.queue_at(#[trigger] self.prices@[j]),
                    self.queue_at(self.prices@[j]),
                ) by {
                    if j > kk {
                        assert(self.prices@[j] != p);
                        assert(self.queue_at(self.prices@[j]) == cur.queue_at(self.prices@[j]));
                        assert(fifo_remnant(
                            pre.queue_at(cur.prices@[j]),
                            cur.queue_at(cur.prices@[j]),
                        ));
                    } else {
                        assert(0 <= rem as int && self.queue_at(self.prices@[j]) == consume_queue(
                            pre.queue_at(self.prices@[j]),
                            rem as int,
                        ).0);
                    }
                }
                lemma_consume_levels_rem(
                    pre.levels_down_from(kk - 1, lo, hi),
                    new_rem as int,
                );
                let x = consume_queue(pre.queue_at(p), rem as int).0;
                done = done.push(x);
                assert(consume_levels(pre.levels_down_from(k0 as int, lo, hi), order.size as int).0
                    =~= done + consume_levels(
                    pre.levels_down_from(kk - 1, lo, hi),
                    new_rem as int,
                ).0);
                assert forall|j: int|
                    kk - 1 < j <= k0 implies self.queue_at(#[trigger] self.prices@[j]) == done[k0
                    - j] by {
                    if j > kk {
                        assert(self.prices@[j] != p);
                        assert(self.queue_at(self.prices@[j]) == cur.queue_at(self.prices@[j]));
                        assert(cur.queue_at(cur.prices@[j]) == done[k0 - j]);
                    }
                }
            }
            rem = new_rem;
            proof {
                kk = kk - 1;
            }
            if k == 0 {
                more = false;
            } else {
                k = k - 1;
            }
        }
        proof {
            if !more || self.prices@[k as int] < lo {
                assert(pre.levels_down_from(kk, lo, hi) == Seq::<
                    Seq<(Size, OrderId)>,
                >::empty());
                assert(target == rem as int);
            } else {
                assert(rem == 0);
                lemma_consume_levels_rem(pre.levels_down_from(kk, lo, hi), 0);
                assert(target == 0);
            }
            assert(target == rem as int);
            // The final queue of each crossed price is the matching
            // component of the crossing fold.
            assert forall|i: int| 0 <= i <= k0 implies #[trigger] pre.prices@[i] <= hi by {
                if i < k0 {
                    assert(pre.prices@[i] < pre.prices@[k0 as int]);
                }
            }
            pre.lemma_down_from_positions(k0 as int, lo, hi);
            pre.lemma_down_from_characterization(k0 as int, lo, hi);
            let ps = pre.prices_down_from(k0 as int, lo, hi);
            let fold0 = consume_levels(pre.levels_down_from(k0 as int, lo, hi), order.size as int);
            if !more || self.prices@[k as int] < lo {
                assert(ps.len() == k0 - kk) by {
                    if ps.len() > k0 - kk {
                        assert(ps[k0 - kk] == pre.prices@[k0 - (k0 - kk)]);
                        assert(pre.prices@[kk] >= lo);
                    }
                    if ps.len() < k0 - kk {
                        assert(pre.prices@[k0 - ps.len()] < lo);
                        assert(pre.prices@[k0 - ps.len()] >= lo);
                    }
                }
                assert(fold0.0 =~= done);
                assert forall|j: int|
                    0 <= j < ps.len() implies self.queue_at(#[trigger] ps[j]) == fold0.0[j] by {
                    assert(ps[j] == pre.prices@[k0 - j]);
                    assert(self.queue_at(self.prices@[k0 - j]) == done[j]);
                }
            } else {
                assert(rem == 0);
                let tailp = pre.prices_down_from(kk, lo, hi);
                let taill = pre.levels_down_from(kk, lo, hi);
                pre.lemma_down_from_positions(kk, lo, hi);
                pre.lemma_down_from_characterization(kk, lo, hi);
                assert forall|i: int|
                    0 <= i < taill.len() && (#[trigger] taill[i]).len() > 0 implies taill[i][0].0
                    > 0 by {
                    assert(taill[i] == pre.queue_at(tailp[i]));
                    assert(pre.chain_ok(tailp[i]));
                }
                lemma_consume_levels_zero(taill);
                assert(fold0.0 =~= done + taill);
                assert(ps.len() == (k0 - kk) + tailp.len()) by {
                    lemma_consume_levels_len(taill, 0);
                    lemma_consume_levels_len(
                        pre.levels_down_from(k0 as int, lo, hi),
                        order.size as int,
                    );
                }
                assert forall|j: int|
                    0 <= j < ps.len() implies self.queue_at(#[trigger] ps[j]) == fold0.0[j] by {
                    assert(ps[j] == pre.prices@[k0 - j]);
                    if j < k0 - kk {
                        assert(self.queue_at(self.prices@[k0 - j]) == done[j]);
                    } else {
                        assert(fold0.0[j] == taill[j - (k0 - kk)]);
                        assert(taill[j - (k0 - kk)] == pre.queue_at(tailp[j - (k0 - kk)]));
                        assert(tailp[j - (k0 - kk)] == pre.prices@[kk - (j - (k0 - kk))]);
                        assert(self.queue_at(self.prices@[k0 - j]) == pre.queue_at(
                            self.prices@[k0 - j],
                        ));
                    }
                }
            }
        }
        // Repair the best bid: the first non-empty limit at or below the
        // old best bid.
        let maybe_k2 = self.first_nonempty_at_or_below(k0);
        let ghost mid0 = *self;
        match maybe_k2 {
            Some(k2) => {
                self.best_bid = self.prices[k2];
            },
            None => {
                self.best_bid = 0;
            },
        }
        let ghost mid = *self;
        proof {
            Self::lemma_same_book(mid0, mid);
            // Every price in the open interval (best_bid, best_ask) is
            // empty: above the old best bid by the old book's invariant,
            // below it by the scan.
            assert forall|p: Price|
                mid.best_bid < p < mid.best_ask implies (#[trigger] mid.queue_at(p)).len()
                == 0 by {
                if p > hi {
                    assert(mid.queue_at(p) == mid0.queue_at(p));
                    assert(mid0.queue_at(p) == pre.queue_at(p));
                } else {
                    if mid.chains@.dom().contains(p) {
                        assert(mid.touched(p));
                        let j = choose|j: int|
                            0 <= j < mid.prices@.len() && mid.prices@[j] == p;
                        if j > k0 {
                            assert(pre.prices@[j] > hi);
                        }
                        assert(j <= k0);
                        match maybe_k2 {
                            Some(k2) => {
                                assert(p > mid0.prices@[k2 as int]);
                                assert(j > k2);
                            },
                            None => {},
                        }
                        assert(mid0.queue_at(mid0.prices@[j]).len() == 0);
                        assert(mid.queue_at(p) == mid0.queue_at(p));
                    } else {
                        assert(mid.queue_at(p).len() == 0);
                    }
                }
            }
            assert(mid.best_bid < mid.best_ask) by {
                match maybe_k2 {
                    Some(k2) => {
                        assert(mid.best_bid == mid0.prices@[k2 as int]);
                        assert(mid0.prices@[k2 as int] <= mid0.prices@[k0 as int]);
                    },
                    None => {},
                }
            }
            if mid.best_ask != Price::MAX {
                assert(mid.best_ask > hi);
                assert(mid.queue_at(mid.best_ask) == mid0.queue_at(mid.best_ask));
                assert(mid0.queue_at(mid.best_ask) == pre.queue_at(mid.best_ask));
            }
            if mid.best_bid != 0 {
                let k2 = maybe_k2->0;
                assert(mid.queue_at(mid.best_bid) == mid0.queue_at(mid0.prices@[k2 as int]));
            }
            assert(mid.wf());
        }
        if rem > 0 {
            proof {
                // The whole crossed range is drained, so the remainder is
                // not marketable and rests at a fresh, empty price.
                assert forall|p: Price|
                    lo <= p <= hi implies (#[trigger] mid.queue_at(p)).len() == 0 by {
                    if mid.chains@.dom().contains(p) {
                        assert(mid.touched(p));
                        let j = choose|j: int|
                            0 <= j < mid.prices@.len() && mid.prices@[j] == p;
                        if j > k0 {
                            assert(pre.prices@[j] > hi);
                        }
                        assert(j <= k0);
                        assert(j > kk);
                        assert(mid.queue_at(mid.prices@[j]).len() == 0);
                    }
                }
                assert(mid.best_bid < lo) by {
                    match maybe_k2 {
                        Some(k2) => {
                            assert(mid.queue_at(mid0.prices@[k2 as int]).len() > 0);
                            if mid0.prices@[k2 as int] >= lo {
                                assert(mid.queue_at(mid0.prices@[k2 as int]).len() == 0);
                            }
                        },
                        None => {},
                    }
                }
                assert(queue_sum(mid.queue_at(order.price)) == 0);
            }
            let id = self.insert_order(Order { price: order.price, size: rem, side: Side::Ask });
            proof {
                assert(final(self).queue_at(order.price) =~= seq![((rem as Size), id)]);
                assert forall|p: Price|
                    p < lo || p > hi implies final(self).queue_at(p) == pre.queue_at(p) by {
                    assert(p != order.price);
                    assert(final(self).queue_at(p) == mid.queue_at(p));
                }
                assert forall|p: Price|
                    order.price < p <= hi implies (#[trigger] final(self).queue_at(p)).len()
                    == 0 by {
                    assert(final(self).queue_at(p) == mid.queue_at(p));
                }
                assert(final(self).is_first_nonempty_at_or_below(
                    (order.price - 1) as Price,
                    final(self).spec_best_bid(),
                )) by {
                    assert(final(self).spec_best_bid() == mid.best_bid);
                    if mid.best_bid != 0 {
                        assert(final(self).queue_at(mid.best_bid) == mid.queue_at(mid.best_bid));
                    }
                    assert forall|q: Price|
                        final(self).spec_best_bid() < q <= order.price - 1 implies (
                    #[trigger] final(self).queue_at(q)).len() == 0 by {}
                }
                let ps = pre.prices_down_from(k0 as int, lo, hi);
                assert forall|j: int|
                    0 <= j < ps.len() && #[trigger] ps[j] != order.price implies final(self).queue_at(ps[j]) == consume_levels(
                    pre.levels_down_from(k0 as int, lo, hi),
                    order.size as int,
                ).0[j] by {
                    assert(mid.queue_at(ps[j]) == mid0.queue_at(ps[j]));
                    assert(final(self).queue_at(ps[j]) == mid.queue_at(ps[j]));
                }
            }
            Some(id)
        } else {
            proof {
                assert forall|p: Price|
                    lo <= p <= hi implies fifo_remnant(
                    pre.queue_at(p),
                    #[trigger] mid.queue_at(p),
                ) by {
                    if mid.chains@.dom().contains(p) {
                        assert(mid.touched(p));
                        let j = choose|j: int|
                            0 <= j < mid.prices@.len() && mid.prices@[j] == p;
                        if j > k0 {
                            assert(pre.prices@[j] > hi);
                        }
                        assert(j <= k0);
                        if j > kk {
                            assert(mid.queue_at(p) == mid0.queue_at(p));
                            assert(fifo_remnant(
                                pre.queue_at(mid0.prices@[j]),
                                mid0.queue_at(mid0.prices@[j]),
                            ));
                        } else {
                            assert(mid.queue_at(p) == mid0.queue_at(p));
                            assert(mid0.queue_at(mid0.prices@[j]) == pre.queue_at(
                                mid0.prices@[j],
                            ));
                            assert(pre.chain_ok(p));
                            lemma_consume_queue_zero(pre.queue_at(p));
                            assert(mid.queue_at(p) == consume_queue(pre.queue_at(p), 0).0);
                        }
                    } else {
                        if pre.touched(p) {
                            let j = choose|j: int|
                                0 <= j < pre.prices@.len() && pre.prices@[j] == p;
                            assert(mid.prices@[j] == p);
                            assert(mid.limit_ok(j));
                            assert(false);
                        }
                        assert(!pre.chains@.dom().contains(p));
                        assert(mid.queue_at(p) =~= pre.queue_at(p));
                        assert(pre.chain_ok(p));
                        lemma_consume_queue_zero(pre.queue_at(p));
                        assert(mid.queue_at(p) == consume_queue(pre.queue_at(p), 0).0);
                    }
                }
                assert(mid.is_first_nonempty_at_or_below(hi, mid.best_bid)) by {
                    match maybe_k2 {
                        Some(k2) => {
                            assert(mid.best_bid == mid0.prices@[k2 as int]);
                            assert(mid0.prices@[k2 as int] <= mid0.prices@[k0 as int]);
                        },
                        None => {},
                    }
                    assert forall|q: Price|
                        mid.best_bid < q <= hi implies (#[trigger] mid.queue_at(q)).len()
                        == 0 by {
                        assert(mid.best_ask > hi);
                    }
                }
                let ps = pre.prices_down_from(k0 as int, lo, hi);
                assert forall|j: int|
                    0 <= j < ps.len() implies final(self).queue_at(#[trigger] ps[j])
                    == consume_levels(
                    pre.levels_down_from(k0 as int, lo, hi),
                    order.size as int,
                ).0[j] by {
                    assert(mid.queue_at(ps[j]) == mid0.queue_at(ps[j]));
                }
            }
            None
        }
    }

    /// Match or insert a limit order.  A marketable order first crosses
    /// the opposite side in price-time-priority order; any unfilled
    /// remainder, or a non-marketable order, is inserted in the book and
    /// its identifier returned.
    pub fn limit(&mut self, order: Order) -> (r: Option<OrderId>)
        requires
            old(self).wf(),
            order.valid(),
            old(self).spec_max_order_id() < OrderId::MAX,
            !(order.side == Side::Bid && order.price >= old(self).spec_best_ask()) && !(order.side
                == Side::Ask && order.price <= old(self).spec_best_bid()) ==> queue_sum(
                old(self).queue_at(order.price),
            ) + order.size <= Size::MAX,
        ensures
            final(self).wf(),
            ({
                let bid_mkt = order.side == Side::Bid && order.price >= old(self).spec_best_ask();
                let ask_mkt = order.side == Side::Ask && order.price <= old(self).spec_best_bid();
                &&& (!bid_mkt && !ask_mkt ==> {
                    &&& r == Some(old(self).spec_max_order_id())
                    &&& final(self).spec_max_order_id() == old(self).spec_max_order_id() + 1
                    &&& final(self).queue_at(order.price) == old(self).queue_at(order.price).push(
                        (order.size, old(self).spec_max_order_id()),
                    )
                    &&& (forall|p: Price|
                        p != order.price ==> final(self).queue_at(p) == old(self).queue_at(p))
                    &&& final(self).spec_best_bid() == (if order.side == Side::Bid && order.price
                        > old(self).spec_best_bid() {
                        order.price
                    } else {
                        old(self).spec_best_bid()
                    })
                    &&& final(self).spec_best_ask() == (if order.side == Side::Ask && order.price
                        < old(self).spec_best_ask() {
                        order.price
                    } else {
                        old(self).spec_best_ask()
                    })
                })
                &&& (bid_mkt ==> {
                    let rem = consume_levels(
                        old(self).levels_up(old(self).spec_best_ask(), order.price),
                        order.size as int,
                    ).1;
                    &&& (forall|p: Price|
                        p < old(self).spec_best_ask() || p > order.price ==> final(self).queue_at(p) == old(self).queue_at(p))
                    &&& (rem > 0 ==> r == Some(old(self).spec_max_order_id()) && final(self).spec_max_order_id() == old(self).spec_max_order_id() + 1 && final(self).queue_at(order.price) == seq![((rem as Size), old(self).spec_max_order_id())]
                        && (forall|p: Price|
                        old(self).spec_best_ask() <= p < order.price ==> (#[trigger] final(self).queue_at(p)).len() == 0) && final(self).spec_best_bid() == order.price
                        && final(self).is_first_nonempty_at_or_above(
                            (order.price + 1) as Price,
                            final(self).spec_best_ask(),
                        ))
                    &&& (rem == 0 ==> r is None && final(self).spec_max_order_id() == old(self).spec_max_order_id() && final(self).spec_best_bid() == old(self).spec_best_bid() && (forall|p: Price|
                        old(self).spec_best_ask() <= p <= order.price ==> fifo_remnant(
                            old(self).queue_at(p),
                            #[trigger] final(self).queue_at(p),
                        ))
                        && final(self).is_first_nonempty_at_or_above(
                            old(self).spec_best_ask(),
                            final(self).spec_best_ask(),
                        ))
                    &&& ({
                        let ps = old(self).prices_up(old(self).spec_best_ask(), order.price);
                        let qs = consume_levels(
                            old(self).levels_up(old(self).spec_best_ask(), order.price),
                            order.size as int,
                        ).0;
                        forall|j: int|
                            0 <= j < ps.len() && (rem == 0 || #[trigger] ps[j] != order.price)
                                ==> final(self).queue_at(ps[j]) == qs[j]
                    })
                })
                &&& (ask_mkt ==> {
                    let rem = consume_levels(
                        old(self).levels_down(order.price, old(self).spec_best_bid()),
                        order.size as int,
                    ).1;
                    &&& (forall|p: Price|
                        p < order.price || p > old(self).spec_best_bid() ==> final(self).queue_at(p) == old(self).queue_at(p))
                    &&& (rem > 0 ==> r == Some(old(self).spec_max_order_id()) && final(self).spec_max_order_id() == old(self).spec_max_order_id() + 1 && final(self).queue_at(order.price) == seq![((rem as Size), old(self).spec_max_order_id())]
                        && (forall|p: Price|
                        order.price < p <= old(self).spec_best_bid() ==> (#[trigger] final(self).queue_at(p)).len() == 0) && final(self).spec_best_ask() == order.price
                        && final(self).is_first_nonempty_at_or_below(
                            (order.price - 1) as Price,
                            final(self).spec_best_bid(),
                        ))
                    &&& (rem == 0 ==> r is None && final(self).spec_max_order_id() == old(self).spec_max_order_id() && final(self).spec_best_ask() == old(self).spec_best_ask() && (forall|p: Price|
                        order.price <= p <= old(self).spec_best_bid() ==> fifo_remnant(
                            old(self).queue_at(p),
                            #[trigger] final(self).queue_at(p),
                        ))
                        && final(self).is_first_nonempty_at_or_below(
                            old(self).spec_best_bid(),
                            final(self).spec_best_bid(),
                        ))
                    &&& ({
                        let ps = old(self).prices_down(order.price, old(self).spec_best_bid());
                        let qs = consume_levels(
                            old(self).levels_down(order.price, old(self).spec_best_bid()),
                            order.size as int,
                        ).0;
                        forall|j: int|
                            0 <= j < ps.len() && (rem == 0 || #[trigger] ps[j] != order.price)
                                ==> final(self).queue_at(ps[j]) == qs[j]
                    })
                })
            }),
    {
        if order.side == Side::Bid && order.price >= self.best_ask {
            self.limit_bid_cross(order)
        } else if order.side == Side::Ask && order.price <= self.best_bid {
            self.limit_ask_cross(order)
        } else {
            Some(self.insert_order(order))
        }
    }

    /// `post` is the book reached from `pre` by storing a fresh entry of
    /// `order`'s size under identifier `id` at arena index `index`,
    /// linking it at the tail of the queue at `order.price` (whose map
    /// position is `k`, inserted there if the price was untouched), and
    /// raising the best limit of the order's side.  `t` is the arena index
    /// of the queue's old tail, or `-1` if the queue was empty.
    spec fn inserted_shape(
        pre: Self,
        post: Self,
        order: Order,
        id: OrderId,
        index: usize,
        k: usize,
        existing: bool,
        t: int,
    ) -> bool {
        &&& order.valid()
        &&& (order.side == Side::Bid ==> order.price < pre.best_ask)
        &&& (order.side == Side::Ask ==> order.price > pre.best_bid)
        &&& queue_sum(pre.queue_at(order.price)) + order.size <= Size::MAX
        &&& pre.max_order_id < OrderId::MAX
        &&& id == pre.max_order_id
        &&& post.max_order_id == id + 1
        &&& t == (if pre.chain_at(order.price).len() > 0 {
            pre.chain_at(order.price).last() as int
        } else {
            -1
        })
        &&& post.entries.wf()
        &&& post.entries@.len() >= pre.entries@.len()
        &&& index < post.entries@.len()
        &&& (index < pre.entries@.len() ==> pre.entries@[index as int] is None)
        &&& post.entries@[index as int] == Some(BookEntry { size: order.size, next: None, id })
        &&& (forall|i: int|
            0 <= i < pre.entries@.len() && i != index && i != t ==> post_entries_frame(
                pre,
                post,
                i,
            ))
        &&& (pre.chain_at(order.price).len() > 0 ==> post.entries@[t] == Some(
            BookEntry {
                size: pre.entries@[t]->0.size,
                next: Some(index),
                id: pre.entries@[t]->0.id,
            },
        ))
        &&& post.chains@ == pre.chains@.insert(order.price, pre.chain_at(order.price).push(index))
        &&& (existing ==> k < pre.prices@.len() && pre.prices@[k as int] == order.price
            && post.prices@ == pre.prices@)
        &&& (!existing ==> {
            &&& k <= pre.prices@.len()
            &&& (forall|j: int| 0 <= j < k ==> pre.prices@[j] < order.price)
            &&& (k < pre.prices@.len() ==> pre.prices@[k as int] > order.price)
            &&& post.prices@ == pre.prices@.insert(k as int, order.price)
        })
        &&& post.limits@ == (if existing {
            pre.limits@.update(
                k as int,
                PriceLimit {
                    link: Some(
                        Link {
                            head: if pre.chain_at(order.price).len() > 0 {
                                pre.chain_at(order.price)[0]
                            } else {
                                index
                            },
                            tail: index,
                        },
                    ),
                },
            )
        } else {
            pre.limits@.insert(
                k as int,
                PriceLimit { link: Some(Link { head: index, tail: index }) },
            )
        })
        &&& post.best_bid == (if order.side == Side::Bid && order.price > pre.best_bid {
            order.price
        } else {
            pre.best_bid
        })
        &&& post.best_ask == (if order.side == Side::Ask && order.price < pre.best_ask {
            order.price
        } else {
            pre.best_ask
        })
    }

    /// Under `inserted_shape`, every queue but the inserted price's is
    /// untouched, and that one gained exactly the new entry at its tail.
    proof fn lemma_inserted_frame(
        pre: Self,
        post: Self,
        order: Order,
        id: OrderId,
        index: usize,
        k: usize,
        existing: bool,
        t: int,
    )
        requires
            pre.wf(),
            Self::inserted_shape(pre, post, order, id, index, k, existing, t),
        ensures
            forall|p: Price| p != order.price ==> post.queue_at(p) == pre.queue_at(p),
            forall|p: Price, j: int|
                p != order.price && 0 <= j < pre.chain_at(p).len() ==> post.entries@[(
                #[trigger] pre.chain_at(p)[j]) as int] == pre.entries@[pre.chain_at(p)[j] as int],
            post.queue_at(order.price) == pre.queue_at(order.price).push((order.size, id)),
            forall|j: int|
                0 <= j < pre.chain_at(order.price).len() ==> post.entries@[(
                #[trigger] pre.chain_at(order.price)[j]) as int] is Some && post.entries@[pre.chain_at(
                    order.price,
                )[j] as int]->0.size == pre.entries@[pre.chain_at(order.price)[j] as int]->0.size
                    && post.entries@[pre.chain_at(order.price)[j] as int]->0.id == pre.entries@[pre.chain_at(
                    order.price,
                )[j] as int]->0.id,
            forall|p: Price, j: int|
                0 <= j < pre.chain_at(p).len() ==> #[trigger] pre.chain_at(p)[j] != index,
    {
        let oldc = pre.chain_at(order.price);
        assert forall|p: Price, j: int|
            0 <= j < pre.chain_at(p).len() implies #[trigger] pre.chain_at(p)[j] != index by {
            assert(pre.chain_ok(p));
        }
        assert forall|p: Price, j: int|
            p != order.price && 0 <= j < pre.chain_at(p).len() implies post.entries@[(
        #[trigger] pre.chain_at(p)[j]) as int] == pre.entries@[pre.chain_at(p)[j] as int] by {
            assert(pre.chain_ok(p));
            if oldc.len() > 0 {
                assert(pre.chain_at(order.price)[oldc.len() - 1] != pre.chain_at(p)[j]);
            }
            assert(post_entries_frame(pre, post, pre.chain_at(p)[j] as int));
        }
        assert forall|p: Price| p != order.price implies post.queue_at(p) == pre.queue_at(p) by {
            assert(post.chain_at(p) == pre.chain_at(p));
            assert(post.queue_at(p) =~= pre.queue_at(p));
        }
        assert forall|j: int|
            0 <= j < oldc.len() implies post.entries@[(#[trigger] oldc[j]) as int] is Some
            && post.entries@[oldc[j] as int]->0.size == pre.entries@[oldc[j] as int]->0.size
            && post.entries@[oldc[j] as int]->0.id == pre.entries@[oldc[j] as int]->0.id by {
            assert(pre.chain_ok(order.price));
            if j < oldc.len() - 1 {
                assert(post_entries_frame(pre, post, oldc[j] as int));
            }
        }
        assert(post.chain_at(order.price) == oldc.push(index));
        assert(post.queue_at(order.price) =~= pre.queue_at(order.price).push((order.size, id)));
    }

    /// Under `inserted_shape`, every chain of `post` is well threaded.
    proof fn lemma_inserted_chains(
        pre: Self,
        post: Self,
        order: Order,
        id: OrderId,
        index: usize,
        k: usize,
        existing: bool,
        t: int,
    )
        requires
            pre.wf(),
            Self::inserted_shape(pre, post, order, id, index, k, existing, t),
        ensures
            forall|p: Price| #[trigger] post.chain_ok(p),
    {
        Self::lemma_inserted_frame(pre, post, order, id, index, k, existing, t);
        let oldc = pre.chain_at(order.price);
        assert forall|p: Price| #[trigger] post.chain_ok(p) by {
            assert(pre.chain_ok(p));
            if p == order.price {
                let c = post.chain_at(p);
                assert(c == oldc.push(index));
                assert forall|j: int|
                    0 <= j < c.len() implies (#[trigger] c[j]) < post.entries@.len()
                    && post.entries@[c[j] as int] is Some && post.entries@[c[j] as int]->0.size > 0
                    && post.entries@[c[j] as int]->0.next == (if j + 1 < c.len() {
                    Some(c[j + 1])
                } else {
                    None::<usize>
                }) && post.entries@[c[j] as int]->0.id < post.max_order_id && (j + 1 < c.len()
                    ==> post.entries@[c[j] as int]->0.id < post.entries@[c[j + 1] as int]->0.id) by {
                    if j < oldc.len() {
                        assert(c[j] == oldc[j]);
                        if j < oldc.len() - 1 {
                            assert(post_entries_frame(pre, post, oldc[j] as int));
                        }
                    } else {
                        assert(c[j] == index);
                    }
                }
            } else {
                assert(post.chain_at(p) == pre.chain_at(p));
            }
        }
    }

    /// Under `inserted_shape`, the price map of `post` is sorted, matches
    /// the chains, and covers the chain domain.
    proof fn lemma_inserted_limits(
        pre: Self,
        post: Self,
        order: Order,
        id: OrderId,
        index: usize,
        k: usize,
        existing: bool,
        t: int,
    )
        requires
            pre.wf(),
            Self::inserted_shape(pre, post, order, id, index, k, existing, t),
        ensures
            forall|k2: int| 0 <= k2 < post.prices@.len() ==> post.limit_ok(k2),
            forall|k1: int, k2: int|
                0 <= k1 < k2 < post.prices@.len() ==> post.prices@[k1] < post.prices@[k2],
            forall|k2: int| 0 <= k2 < post.prices@.len() ==> 0 < #[trigger] post.prices@[k2] < Price::MAX,
            forall|p: Price| post.chains@.dom().contains(p) ==> #[trigger] post.touched(p),
            post.prices@.len() == post.limits@.len(),
    {
        let oldc = pre.chain_at(order.price);
        if !existing {
            assert(!pre.touched(order.price)) by {
                if pre.touched(order.price) {
                    let j = choose|j: int|
                        0 <= j < pre.prices@.len() && pre.prices@[j] == order.price;
                    if j > k {
                        assert(pre.prices@[k as int] < pre.prices@[j]);
                    }
                }
            }
            assert(oldc.len() == 0);
        }
        assert forall|k2: int| 0 <= k2 < post.prices@.len() implies post.limit_ok(k2) by {
            if existing {
                assert(pre.limit_ok(k2));
                if k2 != k {
                    assert(pre.prices@[k2] != order.price);
                }
            } else {
                if k2 < k {
                    assert(pre.limit_ok(k2));
                    assert(pre.prices@[k2] != order.price);
                } else if k2 == k {
                } else {
                    assert(pre.limit_ok(k2 - 1));
                    assert(pre.prices@[k2 - 1] != order.price);
                }
            }
        }
        assert forall|k1: int, k2: int|
            0 <= k1 < k2 < post.prices@.len() implies post.prices@[k1] < post.prices@[k2] by {
            if !existing {
                if k1 < k && k2 > k {
                    assert(post.prices@[k1] == pre.prices@[k1]);
                    assert(post.prices@[k2] == pre.prices@[k2 - 1]);
                }
            }
        }
        assert forall|p: Price| post.chains@.dom().contains(p) implies #[trigger] post.touched(
            p,
        ) by {
            if p == order.price {
                assert(post.prices@[k as int] == p);
            } else {
                assert(pre.touched(p));
                let j = choose|j: int| 0 <= j < pre.prices@.len() && pre.prices@[j] == p;
                if !existing && j >= k {
                    assert(post.prices@[j + 1] == p);
                } else {
                    assert(post.prices@[j] == p);
                }
            }
        }
    }

    /// Under `inserted_shape`, the chains of `post` stay disjoint and the
    /// identifiers stay unique.
    proof fn lemma_inserted_ids(
        pre: Self,
        post: Self,
        order: Order,
        id: OrderId,
        index: usize,
        k: usize,
        existing: bool,
        t: int,
    )
        requires
            pre.wf(),
            Self::inserted_shape(pre, post, order, id, index, k, existing, t),
        ensures
            post.chains_disjoint(),
            forall|p1: Price, j1: int, p2: Price, j2: int|
                0 <= j1 < post.chain_at(p1).len() && 0 <= j2 < post.chain_at(p2).len() && (p1 != p2
                    || j1 != j2) ==> (#[trigger] post.entry(post.chain_at(p1)[j1])).1 != (
                #[trigger] post.entry(post.chain_at(p2)[j2])).1,
    {
        Self::lemma_inserted_frame(pre, post, order, id, index, k, existing, t);
        let oldc = pre.chain_at(order.price);
        assert forall|p1: Price, j1: int, p2: Price, j2: int|
            0 <= j1 < post.chain_at(p1).len() && 0 <= j2 < post.chain_at(p2).len() && (p1 != p2
                || j1 != j2) implies #[trigger] post.chain_at(p1)[j1] != #[trigger] post.chain_at(
            p2,
        )[j2] by {
            if p1 == order.price && j1 == oldc.len() {
                if !(p2 == order.price && j2 == oldc.len()) {
                    if p2 == order.price {
                        assert(post.chain_at(p2)[j2] == oldc[j2]);
                        assert(oldc[j2] != index);
                    } else {
                        assert(post.chain_at(p2) == pre.chain_at(p2));
                        assert(pre.chain_at(p2)[j2] != index);
                    }
                }
            } else if p2 == order.price && j2 == oldc.len() {
                if p1 == order.price {
                    assert(post.chain_at(p1)[j1] == oldc[j1]);
                    assert(oldc[j1] != index);
                } else {
                    assert(post.chain_at(p1) == pre.chain_at(p1));
                    assert(pre.chain_at(p1)[j1] != index);
                }
            } else {
                if p1 == order.price {
                    assert(post.chain_at(p1)[j1] == pre.chain_at(p1)[j1]);
                } else {
                    assert(post.chain_at(p1) == pre.chain_at(p1));
                }
                if p2 == order.price {
                    assert(post.chain_at(p2)[j2] == pre.chain_at(p2)[j2]);
                } else {
                    assert(post.chain_at(p2) == pre.chain_at(p2));
                }
                assert(pre.chain_at(p1)[j1] != pre.chain_at(p2)[j2]);
            }
        }
        assert forall|p1: Price, j1: int, p2: Price, j2: int|
            0 <= j1 < post.chain_at(p1).len() && 0 <= j2 < post.chain_at(p2).len() && (p1 != p2
                || j1 != j2) implies (#[trigger] post.entry(post.chain_at(p1)[j1])).1 != (
        #[trigger] post.entry(post.chain_at(p2)[j2])).1 by {
            let new1 = p1 == order.price && j1 == oldc.len();
            let new2 = p2 == order.price && j2 == oldc.len();
            if new1 && !new2 {
                assert(pre.chain_ok(p2));
                assert(post.entry(post.chain_at(p2)[j2]).1 == pre.entry(pre.chain_at(p2)[j2]).1);
            } else if new2 && !new1 {
                assert(pre.chain_ok(p1));
                assert(post.entry(post.chain_at(p1)[j1]).1 == pre.entry(pre.chain_at(p1)[j1]).1);
            } else if !new1 && !new2 {
                assert(pre.chain_ok(p1));
                assert(pre.chain_ok(p2));
                assert(post.entry(post.chain_at(p1)[j1]).1 == pre.entry(pre.chain_at(p1)[j1]).1);
                assert(post.entry(post.chain_at(p2)[j2]).1 == pre.entry(pre.chain_at(p2)[j2]).1);
            }
        }
    }

    /// The book reached from `pre` by inserting a non-marketable order as
    /// `inserted_shape` describes is well formed, and its queues differ
    /// from `pre`'s only at the order's price, where the new entry joined
    /// the tail.
    proof fn lemma_inserted(
        pre: Self,
        post: Self,
        order: Order,
        id: OrderId,
        index: usize,
        k: usize,
        existing: bool,
        t: int,
    )
        requires
            pre.wf(),
            Self::inserted_shape(pre, post, order, id, index, k, existing, t),
        ensures
            post.wf(),
            post.queue_at(order.price) == pre.queue_at(order.price).push((order.size, id)),
            forall|p: Price| p != order.price ==> post.queue_at(p) == pre.queue_at(p),
    {
        Self::lemma_inserted_frame(pre, post, order, id, index, k, existing, t);
        Self::lemma_inserted_chains(pre, post, order, id, index, k, existing, t);
        Self::lemma_inserted_limits(pre, post, order, id, index, k, existing, t);
        Self::lemma_inserted_ids(pre, post, order, id, index, k, existing, t);
        lemma_queue_sum_push(pre.queue_at(order.price), (order.size, id));
        assert forall|p: Price| queue_sum(#[trigger] post.queue_at(p)) <= Size::MAX by {
            if p != order.price {
                assert(post.queue_at(p) == pre.queue_at(p));
            }
        }
        assert forall|p: Price|
            post.best_bid < p < post.best_ask implies (#[trigger] post.queue_at(p)).len() == 0 by {
            if p != order.price {
                assert(post.queue_at(p) == pre.queue_at(p));
            }
        }
        if post.best_bid != 0 && post.best_bid != order.price {
            assert(post.queue_at(post.best_bid) == pre.queue_at(post.best_bid));
        }
        if post.best_ask != Price::MAX && post.best_ask != order.price {
            assert(post.queue_at(post.best_ask) == pre.queue_at(post.best_ask));
        }
    }

}

/// The aggregate size of a sequence of price-limit queues.
pub open spec fn levels_sum(levels: Seq<Seq<(Size, OrderId)>>) -> int
    decreases levels.len(),
{
    if levels.len() == 0 {
        0
    } else {
        queue_sum(levels[0]) + levels_sum(levels.subrange(1, levels.len() as int))
    }
}

/// Conservation through one queue: what the incoming order lost, the
/// queue lost too.  The filled part of the order equals the size removed
/// from the resting side.
pub proof fn lemma_consume_queue_conservation(q: Seq<(Size, OrderId)>, rem: int)
    requires
        0 <= rem,
    ensures
        queue_sum(consume_queue(q, rem).0) + (rem - consume_queue(q, rem).1) == queue_sum(q),
    decreases q.len(),
{
    if q.len() == 0 {
    } else if q[0].0 <= rem {
        lemma_consume_queue_conservation(q.subrange(1, q.len() as int), rem - q[0].0);
    } else {
        lemma_queue_sum_update_le(q, 0, (((q[0].0 - rem) as Size), q[0].1));
    }
}

/// Conservation through a crossing: the total incoming size equals the
/// filled size (what the resting side lost) plus the unfilled remainder.
pub proof fn lemma_crossing_conservation(levels: Seq<Seq<(Size, OrderId)>>, rem: int)
    requires
        0 <= rem,
    ensures
        levels_sum(consume_levels(levels, rem).0) + (rem - consume_levels(levels, rem).1)
            == levels_sum(levels),
    decreases levels.len(),
{
    if levels.len() > 0 {
        let (q, r) = consume_queue(levels[0], rem);
        lemma_consume_queue_conservation(levels[0], rem);
        lemma_consume_queue_rem(levels[0], rem);
        lemma_crossing_conservation(levels.subrange(1, levels.len() as int), r);
        let res = consume_levels(levels, rem);
        assert(res.0 == seq![q] + consume_levels(
            levels.subrange(1, levels.len() as int),
            r,
        ).0);
        assert(res.0[0] == q);
        assert(res.0.subrange(1, res.0.len() as int) =~= consume_levels(
            levels.subrange(1, levels.len() as int),
            r,
        ).0);
    }
}

/// Crossing a sequence of levels starts with the first queue and continues
/// with what is left.
pub proof fn lemma_consume_levels_cons(
    q: Seq<(Size, OrderId)>,
    rest: Seq<Seq<(Size, OrderId)>>,
    rem: int,
)
    ensures
        consume_levels(seq![q] + rest, rem).1 == consume_levels(rest, consume_queue(q, rem).1).1,
        consume_levels(seq![q] + rest, rem).0 == seq![consume_queue(q, rem).0] + consume_levels(
            rest,
            consume_queue(q, rem).1,
        ).0,
{
    assert((seq![q] + rest)[0] == q);
    assert((seq![q] + rest).subrange(1, (seq![q] + rest).len() as int) =~= rest);
}

/// Crossing a sequence of levels leaves one queue per level.
pub proof fn lemma_consume_levels_len(levels: Seq<Seq<(Size, OrderId)>>, rem: int)
    ensures
        consume_levels(levels, rem).0.len() == levels.len(),
    decreases levels.len(),
{
    if levels.len() > 0 {
        lemma_consume_levels_len(
            levels.subrange(1, levels.len() as int),
            consume_queue(levels[0], rem).1,
        );
    }
}

/// An order with nothing left to fill leaves every level unchanged, as
/// long as no resting entry is empty.
pub proof fn lemma_consume_levels_zero(levels: Seq<Seq<(Size, OrderId)>>)
    requires
        forall|j: int|
            0 <= j < levels.len() && (#[trigger] levels[j]).len() > 0 ==> levels[j][0].0 > 0,
    ensures
        consume_levels(levels, 0) == (levels, 0int),
    decreases levels.len(),
{
    if levels.len() > 0 {
        lemma_consume_queue_zero(levels[0]);
        let rest = levels.subrange(1, levels.len() as int);
        lemma_consume_levels_zero(rest);
        assert(consume_levels(levels, 0).0 =~= levels);
    }
}

/// Crossing levels never leaves more unfilled size than came in, and never
/// a negative amount.
pub proof fn lemma_consume_levels_rem(levels: Seq<Seq<(Size, OrderId)>>, rem: int)
    requires
        0 <= rem,
    ensures
        0 <= consume_levels(levels, rem).1 <= rem,
    decreases levels.len(),
{
    if levels.len() > 0 {
        lemma_consume_queue_rem(levels[0], rem);
        lemma_consume_levels_rem(
            levels.subrange(1, levels.len() as int),
            consume_queue(levels[0], rem).1,
        );
    }
}

/// An order with unfilled size left after crossing a queue has drained it.
pub proof fn lemma_consume_queue_drain(q: Seq<(Size, OrderId)>, rem: int)
    requires
        consume_queue(q, rem).1 > 0,
    ensures
        consume_queue(q, rem).0.len() == 0,
    decreases q.len(),
{
    if q.len() > 0 {
        if q[0].0 <= rem {
            lemma_consume_queue_drain(q.subrange(1, q.len() as int), rem - q[0].0);
        }
    }
}

/// Crossing a queue never leaves more unfilled size than came in, and
/// never a negative amount.
pub proof fn lemma_consume_queue_rem(q: Seq<(Size, OrderId)>, rem: int)
    requires
        0 <= rem,
    ensures
        0 <= consume_queue(q, rem).1 <= rem,
    decreases q.len(),
{
    if q.len() == 0 {
    } else if q[0].0 <= rem {
        lemma_consume_queue_rem(q.subrange(1, q.len() as int), rem - q[0].0);
    }
}

/// An incoming order with nothing left to fill leaves a queue unchanged.
pub proof fn lemma_consume_queue_zero(q: Seq<(Size, OrderId)>)
    requires
        q.len() > 0 ==> q[0].0 > 0,
    ensures
        consume_queue(q, 0) == (q, 0int),
{
    if q.len() > 0 {
        assert(q.update(0, ((q[0].0 - 0) as Size, q[0].1)) =~= q);
    }
}

/// Shrinking one entry of a queue does not grow its aggregate size.
pub proof fn lemma_queue_sum_update_le(q: Seq<(Size, OrderId)>, i: int, x: (Size, OrderId))
    requires
        0 <= i < q.len(),
        x.0 <= q[i].0,
    ensures
        queue_sum(q.update(i, x)) == queue_sum(q) - q[i].0 + x.0,
    decreases q.len(),
{
    if i == 0 {
        assert(q.update(0, x).subrange(1, q.len() as int) =~= q.subrange(1, q.len() as int));
    } else {
        assert(q.update(i, x).subrange(1, q.len() as int) =~= q.subrange(1, q.len() as int).update(
            i - 1,
            x,
        ));
        lemma_queue_sum_update_le(q.subrange(1, q.len() as int), i - 1, x);
    }
}

/// Appending an entry adds its size to the queue's aggregate size.
pub proof fn lemma_queue_sum_push(q: Seq<(Size, OrderId)>, x: (Size, OrderId))
    ensures
        queue_sum(q.push(x)) == queue_sum(q) + x.0,
    decreases q.len(),
{
    if q.len() == 0 {
        assert(q.push(x)[0] == x);
        assert(q.push(x).subrange(1, q.push(x).len() as int) =~= Seq::<(Size, OrderId)>::empty());
        assert(queue_sum(q.push(x)) == q.push(x)[0].0 + queue_sum(
            q.push(x).subrange(1, q.push(x).len() as int),
        ));
        assert(queue_sum(Seq::<(Size, OrderId)>::empty()) == 0);
        assert(queue_sum(q) == 0);
    } else {
        assert(q.push(x)[0] == q[0]);
        assert(q.push(x).subrange(1, q.push(x).len() as int) =~= q.subrange(
            1,
            q.len() as int,
        ).push(x));
        lemma_queue_sum_push(q.subrange(1, q.len() as int), x);
    }
}

/// The sum of a queue's sizes is non-negative, and so is the sum of every
/// suffix.
pub proof fn lemma_queue_sum_nonneg_all(q: Seq<(Size, OrderId)>)
    ensures
        forall|j: int| 0 <= j <= q.len() ==> 0 <= queue_sum(#[trigger] q.subrange(j, q.len() as int))
            <= queue_sum(q),
    decreases q.len(),
{
    assert forall|j: int|
        0 <= j <= q.len() implies 0 <= queue_sum(#[trigger] q.subrange(j, q.len() as int))
        <= queue_sum(q) by {
        lemma_queue_sum_suffix(q, j);
    }
}

/// Each suffix sum is bounded by the full sum and non-negative.
proof fn lemma_queue_sum_suffix(q: Seq<(Size, OrderId)>, j: int)
    requires
        0 <= j <= q.len(),
    ensures
        0 <= queue_sum(q.subrange(j, q.len() as int)) <= queue_sum(q),
    decreases q.len(),
{
    if q.len() == 0 {
        assert(q.subrange(j, q.len() as int) =~= q);
    } else if j == 0 {
        assert(q.subrange(0, q.len() as int) =~= q);
        lemma_queue_sum_suffix(q.subrange(1, q.len() as int), 0);
    } else {
        let t = q.subrange(1, q.len() as int);
        lemma_queue_sum_suffix(t, j - 1);
        assert(t.subrange(j - 1, t.len() as int) =~= q.subrange(j, q.len() as int));
    }
}

impl MatchingEngine {
    /// The best-limit invariants, publicly stated: the book is never
    /// crossed; a cached best limit that is not a sentinel rests liquidity;
    /// and the open interval between the best limits is empty.
    pub proof fn lemma_best_limit_invariants(self)
        requires
            self.wf(),
        ensures
            self.spec_best_bid() < self.spec_best_ask(),
            self.spec_best_bid() != 0 ==> self.queue_at(self.spec_best_bid()).len() > 0,
            self.spec_best_ask() != Price::MAX ==> self.queue_at(self.spec_best_ask()).len() > 0,
            forall|p: Price|
                self.spec_best_bid() < p < self.spec_best_ask() ==> (#[trigger] self.queue_at(
                    p,
                )).len() == 0,
    {
    }

    /// Identifier uniqueness across the whole book: no two resting orders,
    /// at any prices, share an identifier, and every identifier is below
    /// the next one to be assigned.
    pub proof fn lemma_ids_unique(self, p1: Price, j1: int, p2: Price, j2: int)
        requires
            self.wf(),
            0 <= j1 < self.queue_at(p1).len(),
            0 <= j2 < self.queue_at(p2).len(),
            p1 != p2 || j1 != j2,
        ensures
            self.queue_at(p1)[j1].1 != self.queue_at(p2)[j2].1,
            self.queue_at(p1)[j1].1 < self.spec_max_order_id(),
    {
        assert(self.chain_ok(p1));
        assert(self.chain_ok(p2));
        assert(self.queue_at(p1)[j1] == self.entry(self.chain_at(p1)[j1]));
        assert(self.queue_at(p2)[j2] == self.entry(self.chain_at(p2)[j2]));
    }

    /// Every resting order has a positive size, and each price's aggregate
    /// size fits the size type.
    pub proof fn lemma_sizes_positive(self, p: Price, j: int)
        requires
            self.wf(),
            0 <= j < self.queue_at(p).len(),
        ensures
            self.queue_at(p)[j].0 > 0,
            queue_sum(self.queue_at(p)) <= Size::MAX,
    {
        assert(self.chain_ok(p));
        assert(self.queue_at(p)[j] == self.entry(self.chain_at(p)[j]));
    }

    /// Time priority within one price limit: the entry at the head of a
    /// queue carries the smallest identifier, so it is the first one a
    /// crossing order consumes.
    pub proof fn lemma_time_priority(self, p: Price)
        requires
            self.wf(),
        ensures
            forall|j: int|
                0 < j < self.queue_at(p).len() ==> self.queue_at(p)[0].1 < (
                #[trigger] self.queue_at(p)[j]).1,
    {
        assert(self.chain_ok(p));
        assert forall|j: int|
            0 < j < self.queue_at(p).len() implies self.queue_at(p)[0].1 < (
            #[trigger] self.queue_at(p)[j]).1 by {
            self.lemma_ids_increase(p, 0, j);
        }
    }

    /// Identifiers strictly increase along a queue, from head to tail:
    /// entries rest in order of insertion.
    pub proof fn lemma_ids_increase(self, p: Price, j1: int, j2: int)
        requires
            self.wf(),
            0 <= j1 < j2 < self.queue_at(p).len(),
        ensures
            self.queue_at(p)[j1].1 < self.queue_at(p)[j2].1,
        decreases j2 - j1,
    {
        assert(self.chain_ok(p));
        if j1 + 1 < j2 {
            self.lemma_ids_increase(p, j1 + 1, j2);
        }
    }
}

/// Inserting a resting order adds exactly one `(size, id)` record to the
/// multiset resting at its price: with the per-price queues otherwise
/// unchanged, a sequence of non-marketable insertions accumulates exactly
/// the multiset of its inputs, with identifiers assigned in call order.
pub proof fn lemma_resting_multiset_after_insert(
    oldq: Seq<(Size, OrderId)>,
    newq: Seq<(Size, OrderId)>,
    size: Size,
    id: OrderId,
)
    requires
        newq == oldq.push((size, id)),
    ensures
        newq.to_multiset() == oldq.to_multiset().insert((size, id)),
{
    oldq.to_multiset_ensures();
}

} // verus!

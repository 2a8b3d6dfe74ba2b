//! The two sides of an order book: price levels by quantized price, with
//! eviction of the worst level, trimming against a reference price, and the
//! best-level and wall queries.

use vstd::prelude::*;
use rust_decimal::Decimal;
use crate::decimal::{decimal_gt, decimal_mantissa, decimal_scale, exceeds, is_zero};
use crate::key::{
    lemma_key_order_is_price_order, quantize, quantize_spec, PriceKey, QuantizationError,
};
use crate::levels::{
    ascending, index_of, lemma_absent, lemma_entries_in_map, lemma_insert, lemma_map_len,
    lemma_remove, lemma_stretch, lemma_update, level_map,
};
pub use crate::levels::Book;

verus! {

/// Which side of the book a set of levels is.
#[derive(Debug, Clone, Copy, PartialEq, Eq, Structural)]
pub enum Side {
    Ask,
    Bid,
}

/// Key `a` is strictly better than key `b` on `side`: higher for bids, lower
/// for asks.
pub open spec fn better(side: Side, a: int, b: int) -> bool {
    match side {
        Side::Bid => a > b,
        Side::Ask => a < b,
    }
}

/// `k` is the best key of `m`: present, with none better.
pub open spec fn is_best(m: Map<int, Book>, side: Side, k: int) -> bool {
    m.contains_key(k) && forall|j: int| m.contains_key(j) ==> !better(side, j, k)
}

/// `k` is the worst key of `m`: present, and better than no other.
pub open spec fn is_worst(m: Map<int, Book>, side: Side, k: int) -> bool {
    m.contains_key(k) && forall|j: int| m.contains_key(j) ==> !better(side, k, j)
}

/// `k` is the wall of `m` for `threshold`: the best key whose level has a
/// size strictly above the threshold.
pub open spec fn is_wall(m: Map<int, Book>, side: Side, threshold: Decimal, k: int) -> bool {
    &&& m.contains_key(k)
    &&& decimal_gt(m[k].size, threshold)
    &&& forall|j: int| m.contains_key(j) && better(side, j, k) ==> !decimal_gt(m[j].size, threshold)
}

/// The keys strictly worse than `k` on `side`.
pub open spec fn worse_than(side: Side, k: int) -> Set<int> {
    Set::new(|j: int| better(side, k, j))
}

/// What trimming at key `k` leaves: the levels strictly worse than `k`.
pub open spec fn trimmed(m: Map<int, Book>, side: Side, k: int) -> Map<int, Book> {
    m.restrict(worse_than(side, k))
}

/// What one update makes of the levels `m`: a level of size zero deletes the
/// level at its key, any other replaces it. `None` where the price has no key.
pub open spec fn pushed(m: Map<int, Book>, book: Book, digits: u32) -> Option<Map<int, Book>> {
    match quantize_spec(book.price, digits) {
        None => None,
        Some(k) => Some(
            if decimal_mantissa(book.size) == 0 {
                m.remove(k as int)
            } else {
                m.insert(k as int, book)
            },
        ),
    }
}

/// What a batch of updates makes of the levels `m`, applied in order up to
/// the first whose price has no key; the flag tells whether all were applied.
pub open spec fn extended(m: Map<int, Book>, books: Seq<Book>, digits: u32) -> (Map<int, Book>, bool)
    decreases books.len(),
{
    if books.len() == 0 {
        (m, true)
    } else {
        match pushed(m, books[0], digits) {
            None => (m, false),
            Some(n) => extended(n, books.drop_first(), digits),
        }
    }
}

/// `found` is the best level of `m`, or nothing where `m` is empty.
pub open spec fn best_of(m: Map<int, Book>, side: Side, found: Option<&Book>) -> bool {
    match found {
        None => m == Map::<int, Book>::empty(),
        Some(b) => exists|k: int| is_best(m, side, k) && m[k] == *b,
    }
}

/// `found` is the wall level of `m` for `threshold`, or nothing where no
/// level has a size above the threshold.
pub open spec fn wall_of(
    m: Map<int, Book>,
    side: Side,
    threshold: Decimal,
    found: Option<&Book>,
) -> bool {
    match found {
        None => forall|k: int| m.contains_key(k) ==> !decimal_gt(m[k].size, threshold),
        Some(b) => exists|k: int| is_wall(m, side, threshold, k) && m[k] == *b,
    }
}

impl Book {
    /// The key of this level's price at `digits` fractional digits.
    pub fn to_key(&self, digits: u32) -> (r: Result<PriceKey, QuantizationError>)
        ensures
            match quantize_spec(self.price, digits) {
                Some(k) => r == Ok::<PriceKey, QuantizationError>(PriceKey(k)),
                None => r is Err,
            },
    {
        quantize(self.price, digits)
    }
}

/// One side of the book: its levels by key, each key the quantized price of
/// its level.
#[derive(Debug, Clone)]
pub struct Books {
    side: Side,
    max_number_of_books: usize,
    digits: u32,
    books: Vec<(PriceKey, Book)>,
}

impl View for Books {
    type V = Map<int, Book>;

    /// The levels by key.
    closed spec fn view(&self) -> Map<int, Book> {
        level_map(self.books@)
    }
}

impl Books {
    /// The side these levels are on.
    pub closed spec fn spec_side(&self) -> Side {
        self.side
    }

    /// How many levels `restrict` lets stand.
    pub closed spec fn spec_capacity(&self) -> usize {
        self.max_number_of_books
    }

    /// The fractional digits at which prices are quantized.
    pub closed spec fn spec_digits(&self) -> u32 {
        self.digits
    }

    /// The levels stand in ascending key order, each under the key of its own
    /// price, and none has size zero.
    pub closed spec fn wf(&self) -> bool {
        &&& ascending(self.books@)
        &&& forall|i: int|
            0 <= i < self.books@.len() ==> quantize_spec(
                (#[trigger] self.books@[i]).1.price,
                self.digits,
            ) == Some(self.books@[i].0.0)
        &&& forall|i: int|
            0 <= i < self.books@.len() ==> decimal_mantissa((#[trigger] self.books@[i]).1.size) != 0
    }

    /// Side, capacity and digits are those of `other`.
    pub open spec fn same_settings(&self, other: &Books) -> bool {
        &&& self.spec_side() == other.spec_side()
        &&& self.spec_capacity() == other.spec_capacity()
        &&& self.spec_digits() == other.spec_digits()
    }

    /// Every level stands under the key of its own price and has a size other
    /// than zero.
    pub proof fn lemma_keyed_by_price(&self, k: int)
        requires
            self.wf(),
            self@.contains_key(k),
        ensures
            i64::MIN <= k <= i64::MAX,
            quantize_spec(self@[k].price, self.spec_digits()) == Some(k as i64),
            decimal_mantissa(self@[k].size) != 0,
    {
        lemma_entries_in_map(self.books@);
        let i = index_of(self.books@, k);
        assert(self@[self.books@[i].0.0 as int] == self.books@[i].1);
    }

    /// Walking the levels by key walks them by price: of two levels, the one
    /// with the greater key has the strictly greater price.
    pub proof fn lemma_price_order(&self, low: int, high: int)
        requires
            self.wf(),
            self@.contains_key(low),
            self@.contains_key(high),
            low < high,
        ensures
            decimal_gt(self@[high].price, self@[low].price),
    {
        self.lemma_keyed_by_price(low);
        self.lemma_keyed_by_price(high);
        let a = self@[low].price;
        let b = self@[high].price;
        lemma_key_order_is_price_order(
            decimal_mantissa(a),
            decimal_scale(a),
            decimal_mantissa(b),
            decimal_scale(b),
            self.spec_digits() as nat,
        );
    }

    /// No levels yet, on `side`, with the given capacity and digits.
    pub fn new(side: Side, max_number_of_books: usize, digits: u32) -> (b: Self)
        ensures
            b.wf(),
            b@ == Map::<int, Book>::empty(),
            b.spec_side() == side,
            b.spec_capacity() == max_number_of_books,
            b.spec_digits() == digits,
    {
        let b = Self { side, max_number_of_books, digits, books: Vec::new() };
        assert(b@ =~= Map::<int, Book>::empty());
        b
    }

    /// The side these levels are on.
    pub fn side(&self) -> (s: Side)
        ensures
            s == self.spec_side(),
    {
        self.side
    }

    /// How many levels `restrict` lets stand.
    pub fn capacity(&self) -> (c: usize)
        ensures
            c == self.spec_capacity(),
    {
        self.max_number_of_books
    }

    /// The fractional digits at which prices are quantized.
    pub fn digits(&self) -> (d: u32)
        ensures
            d == self.spec_digits(),
    {
        self.digits
    }

    /// The number of levels.
    pub fn len(&self) -> (n: usize)
        requires
            self.wf(),
        ensures
            self@.dom().finite(),
            n == self@.len(),
    {
        proof {
            lemma_map_len(self.books@);
        }
        self.books.len()
    }

    /// The levels with their keys, in ascending key order, which is the
    /// strictly ascending order of their prices.
    pub fn books(&self) -> (entries: &Vec<(PriceKey, Book)>)
        requires
            self.wf(),
        ensures
            ascending(entries@),
            level_map(entries@) == self@,
            forall|i: int, j: int|
                0 <= i < j < entries@.len() ==> decimal_gt(
                    (#[trigger] entries@[j]).1.price,
                    (#[trigger] entries@[i]).1.price,
                ),
    {
        proof {
            let s = self.books@;
            lemma_entries_in_map(s);
            assert forall|i: int, j: int| 0 <= i < j < s.len() implies decimal_gt(
                (#[trigger] s[j]).1.price,
                (#[trigger] s[i]).1.price,
            ) by {
                assert(s[i].0.0 < s[j].0.0);
                self.lemma_price_order(s[i].0.0 as int, s[j].0.0 as int);
            }
        }
        &self.books
    }

    /// The place of `key` among the levels: of the first level whose key is
    /// not below it.
    fn position(&self, key: i64) -> (p: usize)
        requires
            self.wf(),
        ensures
            p <= self.books@.len(),
            forall|i: int| 0 <= i < p ==> (#[trigger] self.books@[i]).0.0 < key,
            forall|i: int| p <= i < self.books@.len() ==> (#[trigger] self.books@[i]).0.0 >= key,
    {
        let mut low: usize = 0;
        let mut high: usize = self.books.len();
        while low < high
            invariant
                low <= high <= self.books@.len(),
                ascending(self.books@),
                forall|i: int| 0 <= i < low ==> (#[trigger] self.books@[i]).0.0 < key,
                forall|i: int| high <= i < self.books@.len() ==> (#[trigger] self.books@[i]).0.0 >= key,
            decreases high - low,
        {
            let mid: usize = low + (high - low) / 2;
            if self.books[mid].0.0 < key {
                assert forall|i: int| 0 <= i < mid + 1 implies (#[trigger] self.books@[i]).0.0
                    < key by {
                    if i < mid {
                        assert(self.books@[i].0.0 < self.books@[mid as int].0.0);
                    }
                }
                low = mid + 1;
            } else {
                assert forall|i: int| mid <= i < self.books@.len() implies (#[trigger] self.books@[i]).0.0
                    >= key by {
                    if mid < i {
                        assert(self.books@[mid as int].0.0 < self.books@[i].0.0);
                    }
                }
                high = mid;
            }
        }
        low
    }

    /// Applies one update: a level of size zero deletes the level at its
    /// key, any other level replaces what stood there. Fails, changing
    /// nothing, where the price has no key.
    pub fn push(&mut self, book: Book) -> (r: Result<(), QuantizationError>)
        requires
            old(self).wf(),
        ensures
            final(self).wf(),
            final(self).same_settings(old(self)),
            match pushed(old(self)@, book, old(self).spec_digits()) {
                Some(m) => r is Ok && final(self)@ == m,
                None => r is Err && final(self)@ == old(self)@,
            },
    {
        let key = match quantize(book.price, self.digits) {
            Ok(key) => key,
            Err(e) => {
                return Err(e);
            },
        };
        let p: usize = self.position(key.0);
        let present: bool = p < self.books.len() && self.books[p].0.0 == key.0;
        let ghost before = self.books@;
        if is_zero(&book.size) {
            if present {
                proof {
                    lemma_remove(before, p as int);
                }
                self.books.remove(p);
            } else {
                proof {
                    lemma_absent(before, p as int, key.0 as int);
                }
            }
        } else if present {
            proof {
                lemma_update(before, p as int, (key, book));
            }
            self.books.set(p, (key, book));
        } else {
            proof {
                lemma_insert(before, p as int, (key, book));
            }
            self.books.insert(p, (key, book));
        }
        Ok(())
    }

    /// Applies the updates in order, so that of two for one key the later
    /// wins. Stops at the first whose price has no key and reports it; the
    /// updates before it stay applied.
    pub fn extend(&mut self, books: Vec<Book>) -> (r: Result<(), QuantizationError>)
        requires
            old(self).wf(),
        ensures
            final(self).wf(),
            final(self).same_settings(old(self)),
            final(self)@ == extended(old(self)@, books@, old(self).spec_digits()).0,
            r is Ok <==> extended(old(self)@, books@, old(self).spec_digits()).1,
    {
        let ghost start = self@;
        let ghost digits = self.digits;
        let mut i: usize = 0;
        assert(books@.skip(0) =~= books@);
        while i < books.len()
            invariant
                i <= books@.len(),
                self.wf(),
                self.same_settings(old(self)),
                digits == self.spec_digits(),
                start == old(self)@,
                extended(start, books@, digits) == extended(self@, books@.skip(i as int), digits),
            decreases books@.len() - i,
        {
            let ghost rest = books@.skip(i as int);
            let ghost levels = self@;
            assert(rest[0] == books@[i as int]);
            assert(rest.drop_first() =~= books@.skip(i + 1));
            match self.push(books[i]) {
                Ok(_) => {},
                Err(e) => {
                    assert(extended(levels, rest, digits) == (levels, false));
                    return Err(e);
                },
            }
            assert(extended(levels, rest, digits) == extended(self@, books@.skip(i + 1), digits));
            i = i + 1;
        }
        assert(extended(self@, books@.skip(i as int), digits) == (self@, true));
        Ok(())
    }

    /// Evicts the worst level where there are more levels than the capacity:
    /// the lowest bid, the highest ask. One call evicts one level.
    pub fn restrict(&mut self)
        requires
            old(self).wf(),
        ensures
            final(self).wf(),
            final(self).same_settings(old(self)),
            old(self)@.dom().finite(),
            final(self)@.dom().finite(),
            old(self)@.len() <= old(self).spec_capacity() ==> final(self)@ == old(self)@,
            old(self)@.len() > old(self).spec_capacity() ==> exists|k: int|
                is_worst(old(self)@, old(self).spec_side(), k) && final(self)@ == old(self)@.remove(k),
            old(self)@.len() > old(self).spec_capacity() ==> final(self)@.len() == old(self)@.len() - 1,
            old(self)@.len() <= old(self).spec_capacity() + 1 ==> final(self)@.len() <= old(
                self,
            ).spec_capacity(),
    {
        let ghost before = self.books@;
        proof {
            lemma_map_len(before);
            lemma_entries_in_map(before);
        }
        if self.books.len() > self.max_number_of_books {
            let at: usize = match self.side {
                Side::Bid => 0,
                Side::Ask => self.books.len() - 1,
            };
            proof {
                lemma_remove(before, at as int);
                lemma_map_len(before.remove(at as int));
                let k = before[at as int].0.0 as int;
                assert forall|j: int| old(self)@.contains_key(j) implies !better(self.side, k, j) by {
                    let i = index_of(before, j);
                    if i < at {
                        assert(before[i].0.0 < before[at as int].0.0);
                    }
                    if at < i {
                        assert(before[at as int].0.0 < before[i].0.0);
                    }
                }
                assert(is_worst(old(self)@, self.side, k));
            }
            self.books.remove(at);
        }
    }

    /// The top of the book: the level with the highest key for bids, with
    /// the lowest for asks.
    pub fn best(&self) -> (found: Option<&Book>)
        requires
            self.wf(),
        ensures
            best_of(self@, self.spec_side(), found),
    {
        proof {
            lemma_entries_in_map(self.books@);
        }
        if self.books.len() == 0 {
            assert(self@ =~= Map::<int, Book>::empty());
            return None;
        }
        let at: usize = match self.side {
            Side::Bid => self.books.len() - 1,
            Side::Ask => 0,
        };
        proof {
            let k = self.books@[at as int].0.0 as int;
            assert forall|j: int| self@.contains_key(j) implies !better(self.side, j, k) by {
                let i = index_of(self.books@, j);
                if i < at {
                    assert(self.books@[i].0.0 < self.books@[at as int].0.0);
                }
                if at < i {
                    assert(self.books@[at as int].0.0 < self.books@[i].0.0);
                }
            }
            assert(is_best(self@, self.side, k) && self@[k] == self.books@[at as int].1);
        }
        Some(&self.books[at].1)
    }

    /// Removes every level at or better than `key`.
    fn trim_at(&mut self, key: i64)
        requires
            old(self).wf(),
        ensures
            final(self).wf(),
            final(self).same_settings(old(self)),
            final(self)@ == trimmed(old(self)@, old(self).spec_side(), key as int),
    {
        let ghost before = self.books@;
        let ghost keep = worse_than(self.side, key as int);
        match self.side {
            Side::Bid => {
                let p: usize = self.position(key);
                proof {
                    lemma_stretch(before, 0, p as int, keep);
                }
                self.books.truncate(p);
            },
            Side::Ask => {
                if key == i64::MAX {
                    proof {
                        lemma_stretch(before, 0, 0, keep);
                    }
                    self.books.truncate(0);
                } else {
                    let q: usize = self.position(key + 1);
                    proof {
                        lemma_stretch(before, q as int, before.len() as int, keep);
                    }
                    let rest = self.books.split_off(q);
                    self.books = rest;
                }
            },
        }
    }

    /// Removes every level at or better than the reference price: bids with
    /// a key at or above its key, asks with a key at or below it. Fails,
    /// changing nothing, where the reference price has no key.
    pub fn trim_inside_best_book(&mut self, price: Decimal) -> (r: Result<(), QuantizationError>)
        requires
            old(self).wf(),
        ensures
            final(self).wf(),
            final(self).same_settings(old(self)),
            match quantize_spec(price, old(self).spec_digits()) {
                Some(k) => r is Ok && final(self)@ == trimmed(
                    old(self)@,
                    old(self).spec_side(),
                    k as int,
                ),
                None => r is Err && final(self)@ == old(self)@,
            },
    {
        match quantize(price, self.digits) {
            Ok(key) => {
                self.trim_at(key.0);
                Ok(())
            },
            Err(e) => Err(e),
        }
    }

    /// The nearest wall: walking from the best level towards the worst, the
    /// first level whose size is strictly above `size`.
    pub fn wall(&self, size: Decimal) -> (found: Option<&Book>)
        requires
            self.wf(),
        ensures
            wall_of(self@, self.spec_side(), size, found),
    {
        proof {
            lemma_entries_in_map(self.books@);
        }
        let n: usize = self.books.len();
        let mut seen: usize = 0;
        while seen < n
            invariant
                seen <= n,
                n == self.books@.len(),
                self.wf(),
                forall|i: int|
                    0 <= i < seen ==> !decimal_gt(
                        (#[trigger] self.books@[Self::walk(self.side, n as int, i)]).1.size,
                        size,
                    ),
            decreases n - seen,
        {
            let at: usize = match self.side {
                Side::Bid => n - 1 - seen,
                Side::Ask => seen,
            };
            if exceeds(&self.books[at].1.size, &size) {
                proof {
                    let k = self.books@[at as int].0.0 as int;
                    assert forall|j: int| self@.contains_key(j) && better(self.side, j, k) implies !decimal_gt(
                        self@[j].size,
                        size,
                    ) by {
                        let i = index_of(self.books@, j);
                        if i < at {
                            assert(self.books@[i].0.0 < self.books@[at as int].0.0);
                        }
                        if at < i {
                            assert(self.books@[at as int].0.0 < self.books@[i].0.0);
                        }
                        let step = Self::walk(self.side, n as int, i);
                        assert(Self::walk(self.side, n as int, step) == i);
                        assert(0 <= step < seen);
                    }
                    assert(is_wall(self@, self.side, size, k) && self@[k] == self.books@[at as int].1);
                }
                return Some(&self.books[at].1);
            }
            assert(Self::walk(self.side, n as int, seen as int) == at);
            seen = seen + 1;
        }
        proof {
            assert forall|k: int| self@.contains_key(k) implies !decimal_gt(self@[k].size, size) by {
                let i = index_of(self.books@, k);
                let step = Self::walk(self.side, n as int, i);
                assert(Self::walk(self.side, n as int, step) == i);
            }
        }
        None
    }

    /// The place, in ascending key order, of the level that a walk from best
    /// to worst over `n` levels reaches at step `i`.
    pub open spec fn walk(side: Side, n: int, i: int) -> int {
        match side {
            Side::Bid => n - 1 - i,
            Side::Ask => i,
        }
    }
}

/// A deletion at a key that holds no level changes nothing.
pub proof fn lemma_delete_absent(m: Map<int, Book>, book: Book, digits: u32)
    requires
        decimal_mantissa(book.size) == 0,
        quantize_spec(book.price, digits) is Some,
        !m.contains_key(quantize_spec(book.price, digits)->Some_0 as int),
    ensures
        pushed(m, book, digits) == Some(m),
{
    let k = quantize_spec(book.price, digits)->Some_0 as int;
    assert(m.remove(k) =~= m);
}

/// A deletion after an update at the same key leaves no level at that key,
/// and every other level as it was before the two.
pub proof fn lemma_delete_after_push(m: Map<int, Book>, placed: Book, deleted: Book, digits: u32)
    requires
        decimal_mantissa(placed.size) != 0,
        decimal_mantissa(deleted.size) == 0,
        quantize_spec(placed.price, digits) is Some,
        quantize_spec(deleted.price, digits) == quantize_spec(placed.price, digits),
    ensures
        pushed(m, placed, digits) is Some,
        pushed(pushed(m, placed, digits)->Some_0, deleted, digits) == Some(
            m.remove(quantize_spec(placed.price, digits)->Some_0 as int),
        ),
        !m.remove(quantize_spec(placed.price, digits)->Some_0 as int).contains_key(
            quantize_spec(placed.price, digits)->Some_0 as int,
        ),
{
    let k = quantize_spec(placed.price, digits)->Some_0 as int;
    assert(m.insert(k, placed).remove(k) =~= m.remove(k));
}

/// A side has at most one worst key, so an eviction is determined by the
/// levels it starts from.
pub proof fn lemma_worst_is_unique(m: Map<int, Book>, side: Side, a: int, b: int)
    requires
        is_worst(m, side, a),
        is_worst(m, side, b),
    ensures
        a == b,
{
}

/// Both sides of an order book: asks and bids, each with its own levels.
#[derive(Debug, Clone)]
pub struct OrderBoard {
    pub asks: Books,
    pub bids: Books,
}

impl OrderBoard {
    /// Both sides are well formed, and each is the side its name says.
    pub open spec fn wf(&self) -> bool {
        &&& self.asks.wf()
        &&& self.bids.wf()
        &&& self.asks.spec_side() == Side::Ask
        &&& self.bids.spec_side() == Side::Bid
    }

    /// An empty book whose sides share the capacity and the digits.
    pub fn new(max_number_of_books: usize, digits: u32) -> (board: Self)
        ensures
            board.wf(),
            board.asks@ == Map::<int, Book>::empty(),
            board.bids@ == Map::<int, Book>::empty(),
            board.asks.spec_capacity() == max_number_of_books,
            board.bids.spec_capacity() == max_number_of_books,
            board.asks.spec_digits() == digits,
            board.bids.spec_digits() == digits,
    {
        Self {
            asks: Books::new(Side::Ask, max_number_of_books, digits),
            bids: Books::new(Side::Bid, max_number_of_books, digits),
        }
    }

    /// Trims the asks against `best_ask` and the bids against `best_bid`,
    /// each side on its own. Fails, changing nothing, where either price has
    /// no key.
    pub fn trim_inside_best_book(&mut self, best_ask: Decimal, best_bid: Decimal) -> (r: Result<
        (),
        QuantizationError,
    >)
        requires
            old(self).wf(),
        ensures
            final(self).wf(),
            final(self).asks.same_settings(&old(self).asks),
            final(self).bids.same_settings(&old(self).bids),
            match (
                quantize_spec(best_ask, old(self).asks.spec_digits()),
                quantize_spec(best_bid, old(self).bids.spec_digits()),
            ) {
                (Some(a), Some(b)) => {
                    &&& r is Ok
                    &&& final(self).asks@ == trimmed(old(self).asks@, Side::Ask, a as int)
                    &&& final(self).bids@ == trimmed(old(self).bids@, Side::Bid, b as int)
                },
                _ => r is Err && *final(self) == *old(self),
            },
    {
        let ask_key = match quantize(best_ask, self.asks.digits) {
            Ok(key) => key,
            Err(e) => {
                return Err(e);
            },
        };
        let bid_key = match quantize(best_bid, self.bids.digits) {
            Ok(key) => key,
            Err(e) => {
                return Err(e);
            },
        };
        self.asks.trim_at(ask_key.0);
        self.bids.trim_at(bid_key.0);
        Ok(())
    }

    /// The best ask and the best bid.
    pub fn best(&self) -> (found: (Option<&Book>, Option<&Book>))
        requires
            self.wf(),
        ensures
            best_of(self.asks@, Side::Ask, found.0),
            best_of(self.bids@, Side::Bid, found.1),
    {
        (self.asks.best(), self.bids.best())
    }

    /// The nearest ask wall and the nearest bid wall for `size`.
    pub fn wall(&self, size: Decimal) -> (found: (Option<&Book>, Option<&Book>))
        requires
            self.wf(),
        ensures
            wall_of(self.asks@, Side::Ask, size, found.0),
            wall_of(self.bids@, Side::Bid, size, found.1),
    {
        (self.asks.wall(size), self.bids.wall(size))
    }
}

} // verus!

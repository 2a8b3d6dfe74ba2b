//! Price levels in ascending key order, and the map from key to level that
//! such a sequence stands for.

use vstd::prelude::*;
use rust_decimal::Decimal;
use crate::key::PriceKey;

verus! {

/// Resting quantity at one price. A size of zero asks for the level at that
/// price to be removed.
#[derive(Debug, Clone, Copy)]
pub struct Book {
    pub price: Decimal,
    pub size: Decimal,
}

/// Each key is strictly below the next.
pub open spec fn ascending(s: Seq<(PriceKey, Book)>) -> bool {
    forall|i: int, j: int| 0 <= i < j < s.len() ==> s[i].0.0 < s[j].0.0
}

/// Some entry of `s` has key `k`.
pub open spec fn holds_key(s: Seq<(PriceKey, Book)>, k: int) -> bool {
    exists|i: int| 0 <= i < s.len() && s[i].0.0 == k
}

/// The place of key `k` in `s`.
pub open spec fn index_of(s: Seq<(PriceKey, Book)>, k: int) -> int {
    choose|i: int| 0 <= i < s.len() && s[i].0.0 == k
}

/// The levels of `s` by their keys.
pub open spec fn level_map(s: Seq<(PriceKey, Book)>) -> Map<int, Book> {
    Map::new(|k: int| holds_key(s, k), |k: int| s[index_of(s, k)].1)
}

/// Every entry of an ascending sequence is found in its map, under its key.
pub proof fn lemma_entries_in_map(s: Seq<(PriceKey, Book)>)
    requires
        ascending(s),
    ensures
        forall|i: int|
            0 <= i < s.len() ==> level_map(s).contains_key((#[trigger] s[i]).0.0 as int)
                && level_map(s)[s[i].0.0 as int] == s[i].1,
        forall|k: int| #[trigger]
            level_map(s).contains_key(k) ==> 0 <= index_of(s, k) < s.len() && s[index_of(
                s,
                k,
            )].0.0 == k,
{
    assert forall|i: int| 0 <= i < s.len() implies level_map(s).contains_key(
        (#[trigger] s[i]).0.0 as int,
    ) && level_map(s)[s[i].0.0 as int] == s[i].1 by {
        let k = s[i].0.0 as int;
        assert(holds_key(s, k));
        let j = index_of(s, k);
        if j < i {
            assert(s[j].0.0 < s[i].0.0);
        }
        if i < j {
            assert(s[i].0.0 < s[j].0.0);
        }
    }
}

/// A map that holds exactly the entries of an ascending sequence is the
/// sequence's map.
pub proof fn lemma_map_of_entries(s: Seq<(PriceKey, Book)>, m: Map<int, Book>)
    requires
        ascending(s),
        forall|i: int|
            0 <= i < s.len() ==> m.contains_key((#[trigger] s[i]).0.0 as int) && m[s[i].0.0 as int] == s[i].1,
        forall|k: int| #[trigger] m.contains_key(k) ==> holds_key(s, k),
    ensures
        level_map(s) == m,
{
    lemma_entries_in_map(s);
    assert forall|k: int| level_map(s).contains_key(k) implies m.contains_key(k) && m[k]
        == level_map(s)[k] by {
        let i = index_of(s, k);
        assert(m.contains_key(s[i].0.0 as int));
    }
    assert(level_map(s) =~= m);
}

/// A key that falls between two neighbours is not in the map.
pub proof fn lemma_absent(s: Seq<(PriceKey, Book)>, p: int, k: int)
    requires
        0 <= p <= s.len(),
        forall|i: int| 0 <= i < p ==> (#[trigger] s[i]).0.0 < k,
        forall|i: int| p <= i < s.len() ==> (#[trigger] s[i]).0.0 > k,
    ensures
        !level_map(s).contains_key(k),
        level_map(s).remove(k) == level_map(s),
{
    if holds_key(s, k) {
        let i = index_of(s, k);
        assert(s[i].0.0 == k);
    }
    assert(level_map(s).remove(k) =~= level_map(s));
}

/// Placing a new key between its neighbours inserts it into the map.
pub proof fn lemma_insert(s: Seq<(PriceKey, Book)>, p: int, e: (PriceKey, Book))
    requires
        ascending(s),
        0 <= p <= s.len(),
        forall|i: int| 0 <= i < p ==> (#[trigger] s[i]).0.0 < e.0.0,
        forall|i: int| p <= i < s.len() ==> (#[trigger] s[i]).0.0 > e.0.0,
    ensures
        ascending(s.insert(p, e)),
        level_map(s.insert(p, e)) == level_map(s).insert(e.0.0 as int, e.1),
{
    let t = s.insert(p, e);
    let m = level_map(s).insert(e.0.0 as int, e.1);
    lemma_entries_in_map(s);
    assert forall|i: int, j: int| 0 <= i < j < t.len() implies t[i].0.0 < t[j].0.0 by {
        let a = if i < p { i } else { i - 1 };
        let b = if j < p { j } else { j - 1 };
        if i != p && j != p {
            assert(s[a].0.0 < s[b].0.0);
        } else if i == p {
            assert(s[b].0.0 > e.0.0);
        } else {
            assert(s[a].0.0 < e.0.0);
        }
    }
    assert forall|i: int| 0 <= i < t.len() implies m.contains_key((#[trigger] t[i]).0.0 as int) && m[t[i].0.0 as int]
        == t[i].1 by {
        if i < p {
            assert(t[i] == s[i]);
        } else if i > p {
            assert(t[i] == s[i - 1]);
        }
    }
    assert forall|k: int| #[trigger] m.contains_key(k) implies holds_key(t, k) by {
        if k == e.0.0 {
            assert(t[p].0.0 == k);
        } else {
            let i = index_of(s, k);
            if i < p {
                assert(t[i].0.0 == k);
            } else {
                assert(t[i + 1].0.0 == k);
            }
        }
    }
    lemma_map_of_entries(t, m);
}

/// Replacing the level at a key that is present overwrites it in the map.
pub proof fn lemma_update(s: Seq<(PriceKey, Book)>, p: int, e: (PriceKey, Book))
    requires
        ascending(s),
        0 <= p < s.len(),
        s[p].0.0 == e.0.0,
    ensures
        ascending(s.update(p, e)),
        level_map(s.update(p, e)) == level_map(s).insert(e.0.0 as int, e.1),
{
    let t = s.update(p, e);
    let m = level_map(s).insert(e.0.0 as int, e.1);
    lemma_entries_in_map(s);
    assert forall|i: int, j: int| 0 <= i < j < t.len() implies t[i].0.0 < t[j].0.0 by {
        assert(s[i].0.0 < s[j].0.0);
    }
    assert forall|i: int| 0 <= i < t.len() implies m.contains_key((#[trigger] t[i]).0.0 as int) && m[t[i].0.0 as int]
        == t[i].1 by {
        if i != p {
            assert(t[i] == s[i]);
            if i < p {
                assert(s[i].0.0 < s[p].0.0);
            } else {
                assert(s[p].0.0 < s[i].0.0);
            }
        }
    }
    assert forall|k: int| #[trigger] m.contains_key(k) implies holds_key(t, k) by {
        if k == e.0.0 {
            assert(t[p].0.0 == k);
        } else {
            let i = index_of(s, k);
            assert(t[i].0.0 == k);
        }
    }
    lemma_map_of_entries(t, m);
}

/// Taking an entry out removes its key from the map.
pub proof fn lemma_remove(s: Seq<(PriceKey, Book)>, p: int)
    requires
        ascending(s),
        0 <= p < s.len(),
    ensures
        ascending(s.remove(p)),
        level_map(s.remove(p)) == level_map(s).remove(s[p].0.0 as int),
{
    let t = s.remove(p);
    let m = level_map(s).remove(s[p].0.0 as int);
    lemma_entries_in_map(s);
    assert forall|i: int, j: int| 0 <= i < j < t.len() implies t[i].0.0 < t[j].0.0 by {
        let a = if i < p { i } else { i + 1 };
        let b = if j < p { j } else { j + 1 };
        assert(s[a].0.0 < s[b].0.0);
    }
    assert forall|i: int| 0 <= i < t.len() implies m.contains_key((#[trigger] t[i]).0.0 as int) && m[t[i].0.0 as int]
        == t[i].1 by {
        if i < p {
            assert(t[i] == s[i]);
            assert(s[i].0.0 < s[p].0.0);
        } else {
            assert(t[i] == s[i + 1]);
            assert(s[p].0.0 < s[i + 1].0.0);
        }
    }
    assert forall|k: int| #[trigger] m.contains_key(k) implies holds_key(t, k) by {
        let i = index_of(s, k);
        if i < p {
            assert(t[i].0.0 == k);
        } else {
            assert(t[i - 1].0.0 == k);
        }
    }
    lemma_map_of_entries(t, m);
}

/// A stretch of an ascending sequence holds the keys of the map that lie in
/// the set `keep`, where `keep` parts the sequence at the stretch's ends.
pub proof fn lemma_stretch(s: Seq<(PriceKey, Book)>, from: int, to: int, keep: Set<int>)
    requires
        ascending(s),
        0 <= from <= to <= s.len(),
        forall|i: int| 0 <= i < s.len() ==> (keep.contains((#[trigger] s[i]).0.0 as int) <==> from <= i < to),
    ensures
        ascending(s.subrange(from, to)),
        level_map(s.subrange(from, to)) == level_map(s).restrict(keep),
{
    let t = s.subrange(from, to);
    let m = level_map(s).restrict(keep);
    lemma_entries_in_map(s);
    assert forall|i: int, j: int| 0 <= i < j < t.len() implies t[i].0.0 < t[j].0.0 by {
        assert(s[i + from].0.0 < s[j + from].0.0);
    }
    assert forall|i: int| 0 <= i < t.len() implies m.contains_key((#[trigger] t[i]).0.0 as int) && m[t[i].0.0 as int]
        == t[i].1 by {
        assert(t[i] == s[i + from]);
    }
    assert forall|k: int| #[trigger] m.contains_key(k) implies holds_key(t, k) by {
        let i = index_of(s, k);
        assert(keep.contains(s[i].0.0 as int));
        assert(t[i - from].0.0 == k);
    }
    lemma_map_of_entries(t, m);
}

/// An ascending sequence has as many entries as its map has keys.
pub proof fn lemma_map_len(s: Seq<(PriceKey, Book)>)
    requires
        ascending(s),
    ensures
        level_map(s).dom().finite(),
        level_map(s).len() == s.len(),
    decreases s.len(),
{
    if s.len() == 0 {
        assert(level_map(s) =~= Map::<int, Book>::empty());
    } else {
        let front = s.drop_last();
        let e = s.last();
        assert forall|i: int, j: int| 0 <= i < j < front.len() implies front[i].0.0 < front[j].0.0 by {
            assert(s[i].0.0 < s[j].0.0);
        }
        lemma_map_len(front);
        assert forall|i: int| 0 <= i < front.len() implies (#[trigger] front[i]).0.0 < e.0.0 by {
            assert(s[i].0.0 < s[s.len() - 1].0.0);
        }
        lemma_absent(front, front.len() as int, e.0.0 as int);
        lemma_insert(front, front.len() as int, e);
        assert(front.insert(front.len() as int, e) =~= s);
    }
}

} // verus!

//! Ranking: order the tally by count, find a maximum entry, look a word up,
//! and cut a ranked list down to the portion to display.

use vstd::prelude::*;

use crate::counter::FrequencyMap;
use crate::tokenize::str_eq;

verus! {

/// The entries of `es` are ordered by count, smallest first.
pub open spec fn sorted_by_count(es: Seq<(String, u32)>) -> bool {
    forall|i: int, j: int| 0 <= i <= j < es.len() ==> (#[trigger] es[i]).1 <= (#[trigger] es[j]).1
}

/// Inserting an element anywhere in a sequence adds exactly that element to
/// the sequence's multiset.
proof fn lemma_insert_to_multiset<T>(s: Seq<T>, pos: int, v: T)
    requires
        0 <= pos <= s.len(),
    ensures
        s.insert(pos, v).to_multiset() == s.to_multiset().insert(v),
{
    broadcast use vstd::seq_lib::lemma_multiset_commutative;
    broadcast use vstd::seq_lib::group_to_multiset_ensures;

    let left = s.subrange(0, pos);
    let right = s.subrange(pos, s.len() as int);
    assert(s.insert(pos, v) == left.push(v) + right);
    assert(s =~= left + right);
    assert(left.push(v).to_multiset() =~= left.to_multiset().insert(v));
    assert((left + right).to_multiset() =~= left.to_multiset().add(right.to_multiset()));
    assert(s.insert(pos, v).to_multiset() =~= s.to_multiset().insert(v));
}

/// The entries of `map`, ordered by count, smallest first: the same entries
/// as the map holds, in some order consistent with the counts.
#[verifier::loop_isolation(false)]
pub fn sort_hashmap(map: &FrequencyMap) -> (r: Vec<(String, u32)>)
    ensures
        sorted_by_count(r@),
        r@.to_multiset() == map.entries@.to_multiset(),
{
    broadcast use vstd::seq_lib::group_to_multiset_ensures;

    let n = map.entries.len();
    let mut r: Vec<(String, u32)> = Vec::new();
    proof {
        assert(map.entries@.take(0) =~= Seq::<(String, u32)>::empty());
        assert(r@ =~= Seq::<(String, u32)>::empty());
        assert(r@.to_multiset() =~= map.entries@.take(0).to_multiset());
    }
    let mut k: usize = 0;
    while k < n
        invariant
            k <= n,
            n == map.entries@.len(),
            sorted_by_count(r@),
            r@.len() == k,
            r@.to_multiset() == map.entries@.take(k as int).to_multiset(),
        decreases n - k,
    {
        let word = map.entries[k].0.clone();
        let count = map.entries[k].1;
        let rl = r.len();
        let mut p: usize = 0;
        while p < rl && r[p].1 <= count
            invariant
                p <= rl,
                rl == r@.len(),
                forall|t: int| 0 <= t < p ==> (#[trigger] r@[t]).1 <= count,
            decreases rl - p,
        {
            p += 1;
        }
        let ghost r0 = r@;
        let ghost e = (word, count);
        r.insert(p, (word, count));
        proof {
            assert(e == map.entries@[k as int]);
            r0.insert_ensures(p as int, e);
            lemma_insert_to_multiset(r0, p as int, e);
            assert(map.entries@.take(k as int + 1) =~= map.entries@.take(k as int).push(e));
            assert(map.entries@.take(k as int).push(e).to_multiset() == map.entries@.take(
                k as int,
            ).to_multiset().insert(e));
            assert forall|i: int, j: int| 0 <= i <= j < r@.len() implies (#[trigger] r@[i]).1 <= (
            #[trigger] r@[j]).1 by {
                if i < p as int {
                    assert(r@[i] == r0[i]);
                } else if i == p as int {
                    assert(r@[i] == e);
                } else {
                    assert(r@[i] == r0[i - 1]);
                    assert(r0[i - 1].1 >= r0[p as int].1);
                }
                if j < p as int {
                    assert(r@[j] == r0[j]);
                } else if j == p as int {
                    assert(r@[j] == e);
                } else {
                    assert(r@[j] == r0[j - 1]);
                    assert(r0[j - 1].1 >= r0[p as int].1);
                }
            }
        }
        k += 1;
    }
    proof {
        assert(map.entries@.take(n as int) =~= map.entries@);
    }
    r
}

/// An entry with the greatest count, when the map is not empty: no entry of
/// the map counts higher. Which of several tied entries comes back is not
/// specified.
pub fn get_max_word(map: &FrequencyMap) -> (r: Option<(String, u32)>)
    requires
        map.wf(),
    ensures
        r is Some <==> map.entries@.len() > 0,
        r matches Some(p) ==> {
            &&& map.contains_word(p.0@)
            &&& map.spec_count(p.0@) == p.1 as nat
            &&& forall|w: Seq<char>| #[trigger] map.spec_count(w) <= p.1 as nat
        },
{
    let n = map.entries.len();
    if n == 0 {
        return None;
    }
    let mut best: usize = 0;
    let mut k: usize = 1;
    while k < n
        invariant
            best < k <= n,
            n == map.entries@.len(),
            forall|t: int| 0 <= t < k ==> (#[trigger] map.entries@[t]).1 <= map.entries@[
                best as int].1,
        decreases n - k,
    {
        if map.entries[k].1 > map.entries[best].1 {
            best = k;
        }
        k += 1;
    }
    let word = map.entries[best].0.clone();
    let count = map.entries[best].1;
    proof {
        map.lemma_count_at(best as int);
        assert forall|w: Seq<char>| #[trigger] map.spec_count(w) <= count as nat by {
            if map.contains_word(w) {
                let j = map.index_of(w);
                map.lemma_count_at(j);
            }
        }
    }
    Some((word, count))
}

/// The map's entry for the word `query`, when there is one, as a fresh pair
/// of the word and its count.
#[verifier::loop_isolation(false)]
pub fn get_search_word(map: &FrequencyMap, query: &str) -> (r: Option<(String, u32)>)
    requires
        map.wf(),
    ensures
        r is Some <==> map.contains_word(query@),
        r matches Some(p) ==> p.0@ == query@ && p.1 as nat == map.spec_count(query@),
{
    let n = map.entries.len();
    let mut k: usize = 0;
    while k < n
        invariant
            k <= n,
            n == map.entries@.len(),
            forall|t: int| 0 <= t < k ==> (#[trigger] map.entries@[t]).0@ != query@,
        decreases n - k,
    {
        if str_eq(map.entries[k].0.as_str(), query) {
            proof {
                map.lemma_count_at(k as int);
            }
            return Some((map.entries[k].0.clone(), map.entries[k].1));
        }
        k += 1;
    }
    proof {
        assert(!map.contains_word(query@));
    }
    None
}

/// The displayed portion of a ranked list: the list reversed when `reverse`
/// asks for it, then cut to its first `n` entries; shorter lists are kept
/// whole.
pub open spec fn ranked_take(es: Seq<(String, u32)>, n: int, reverse: bool) -> Seq<(String, u32)> {
    let ordered = if reverse {
        es.reverse()
    } else {
        es
    };
    if n <= ordered.len() {
        ordered.take(n)
    } else {
        ordered
    }
}

/// Cuts `list` to the portion to display: reversed when `reverse` asks for
/// it, then truncated to the first `n` entries.
#[verifier::loop_isolation(false)]
pub fn top_n(list: &Vec<(String, u32)>, n: usize, reverse: bool) -> (r: Vec<(String, u32)>)
    ensures
        r@ == ranked_take(list@, n as int, reverse),
{
    let len = list.len();
    let m = if n <= len {
        n
    } else {
        len
    };
    let mut r: Vec<(String, u32)> = Vec::new();
    let mut i: usize = 0;
    while i < m
        invariant
            i <= m,
            r@.len() == i,
            forall|t: int|
                0 <= t < i ==> #[trigger] r@[t] == (if reverse {
                    list@[list@.len() - 1 - t]
                } else {
                    list@[t]
                }),
        decreases m - i,
    {
        if reverse {
            let src = len - 1 - i;
            r.push((list[src].0.clone(), list[src].1));
        } else {
            r.push((list[i].0.clone(), list[i].1));
        }
        i += 1;
    }
    proof {
        assert(r@ =~= ranked_take(list@, n as int, reverse));
    }
    r
}

/// Ranking is idempotent at full length: asking for the whole of an already
/// ordered list, without reversal, gives the list back unchanged.
pub proof fn lemma_top_n_identity(es: Seq<(String, u32)>)
    ensures
        ranked_take(es, es.len() as int, false) == es,
{
    assert(ranked_take(es, es.len() as int, false) =~= es);
}

/// Truncation boundaries: a cut to zero entries is empty, and a cut longer
/// than the list keeps the whole list — unchanged when not reversed, and
/// merely reversed otherwise.
pub proof fn lemma_top_n_bounds(es: Seq<(String, u32)>, n: int, reverse: bool)
    ensures
        ranked_take(es, 0, reverse) == Seq::<(String, u32)>::empty(),
        n >= es.len() ==> ranked_take(es, n, false) == es,
        n >= es.len() ==> ranked_take(es, n, true) == es.reverse(),
{
    assert(ranked_take(es, 0, reverse) =~= Seq::<(String, u32)>::empty());
    if n >= es.len() {
        assert(ranked_take(es, n, false) =~= es);
        assert(ranked_take(es, n, true) =~= es.reverse());
    }
}

} // verus!

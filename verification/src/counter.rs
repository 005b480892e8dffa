//! The frequency map: a tally of how often each word occurs in a text.

use vstd::prelude::*;

use crate::tokenize::is_ws;
use crate::tokenize::is_whitespace_char;
use crate::tokenize::lemma_occurrences_le;
use crate::tokenize::lemma_occurrences_push;
use crate::tokenize::lemma_tokens_skip_ws;
use crate::tokenize::lemma_tokens_step;
use crate::tokenize::occurrences;
use crate::tokenize::str_eq;
use crate::tokenize::tokens;

verus! {

/// A mapping from words to occurrence counts. Keys are unique; the order of
/// the entries carries no meaning.
pub struct FrequencyMap {
    pub entries: Vec<(String, u32)>,
}

/// The counts of `es`, added up.
pub open spec fn sum_counts(es: Seq<(String, u32)>) -> nat
    decreases es.len(),
{
    if es.len() == 0 {
        0
    } else {
        sum_counts(es.drop_last()) + es.last().1 as nat
    }
}

impl FrequencyMap {
    /// Well-formed: no word appears in two entries.
    pub open spec fn wf(self) -> bool {
        forall|i: int, j: int|
            0 <= i < j < self.entries@.len() ==> #[trigger] self.entries@[i].0@
                != #[trigger] self.entries@[j].0@
    }

    /// Whether the map has an entry for the word `w`.
    pub open spec fn contains_word(self, w: Seq<char>) -> bool {
        exists|i: int| 0 <= i < self.entries@.len() && #[trigger] self.entries@[i].0@ == w
    }

    /// The index of the entry for `w`, when there is one.
    pub open spec fn index_of(self, w: Seq<char>) -> int {
        choose|i: int| 0 <= i < self.entries@.len() && #[trigger] self.entries@[i].0@ == w
    }

    /// The count recorded for `w`; zero when `w` has no entry.
    pub open spec fn spec_count(self, w: Seq<char>) -> nat {
        if self.contains_word(w) {
            self.entries@[self.index_of(w)].1 as nat
        } else {
            0
        }
    }

    /// All counts added up.
    pub open spec fn total(self) -> nat {
        sum_counts(self.entries@)
    }

    /// In a well-formed map, the entry at index `i` is the one entry for its
    /// word, so the recorded count is that entry's count.
    pub proof fn lemma_count_at(self, i: int)
        requires
            self.wf(),
            0 <= i < self.entries@.len(),
        ensures
            self.contains_word(self.entries@[i].0@),
            self.index_of(self.entries@[i].0@) == i,
            self.spec_count(self.entries@[i].0@) == self.entries@[i].1 as nat,
    {
        let w = self.entries@[i].0@;
        assert(self.contains_word(w));
        let j = self.index_of(w);
        assert(0 <= j < self.entries@.len() && self.entries@[j].0@ == w);
        if i < j {
            assert(self.entries@[i].0@ != self.entries@[j].0@);
        } else if j < i {
            assert(self.entries@[j].0@ != self.entries@[i].0@);
        }
    }

    /// A contained word's entry index is in range and holds the word and
    /// its recorded count.
    pub proof fn lemma_index_of(self, w: Seq<char>)
        requires
            self.contains_word(w),
        ensures
            0 <= self.index_of(w) < self.entries@.len(),
            self.entries@[self.index_of(w)].0@ == w,
            self.spec_count(w) == self.entries@[self.index_of(w)].1 as nat,
    {
        assert(exists|i: int|
            0 <= i < self.entries@.len() && #[trigger] self.entries@[i].0@ == w);
    }

    /// An empty map: no words, total zero.
    pub fn new() -> (m: FrequencyMap)
        ensures
            m.wf(),
            m.entries@.len() == 0,
            forall|w: Seq<char>| !(#[trigger] m.contains_word(w)),
            forall|w: Seq<char>| #[trigger] m.spec_count(w) == 0,
            m.total() == 0,
    {
        FrequencyMap { entries: Vec::new() }
    }

    /// Raises the count of `word` by one, starting it at one when the word
    /// is new. Every other word keeps its count, and the total rises by one.
    #[verifier::loop_isolation(false)]
    pub fn increment(&mut self, word: String)
        requires
            old(self).wf(),
            old(self).spec_count(word@) < u32::MAX,
        ensures
            final(self).wf(),
            final(self).spec_count(word@) == old(self).spec_count(word@) + 1,
            forall|w: Seq<char>|
                w != word@ ==> #[trigger] final(self).spec_count(w) == old(self).spec_count(w),
            forall|w: Seq<char>|
                #[trigger] final(self).contains_word(w) <==> (old(self).contains_word(w) || w
                    == word@),
            final(self).total() == old(self).total() + 1,
    {
        let ghost es0 = self.entries@;
        let n = self.entries.len();
        let mut k: usize = 0;
        while k < n
            invariant
                k <= n,
                n == self.entries@.len(),
                self == old(self),
                forall|m: int| 0 <= m < k ==> #[trigger] self.entries@[m].0@ != word@,
            decreases n - k,
        {
            if self.entries[k].0 == word {
                let c = self.entries[k].1;
                proof {
                    self.lemma_count_at(k as int);
                }
                let w_key = self.entries[k].0.clone();
                self.entries[k] = (w_key, c + 1);
                proof {
                    let newe = self.entries@[k as int];
                    assert(self.entries@ =~= es0.update(k as int, newe));
                    lemma_sum_counts_update(es0, k as int, newe);
                    assert forall|w: Seq<char>| #[trigger] self.contains_word(w) <==> (old(
                        self,
                    ).contains_word(w) || w == word@) by {
                        if old(self).contains_word(w) {
                            let j = old(self).index_of(w);
                            assert(self.entries@[j].0@ == w);
                        }
                        if self.contains_word(w) {
                            let j = self.index_of(w);
                            assert(0 <= j < es0.len());
                            assert(es0[j].0@ == w);
                        }
                        if w == word@ {
                            assert(self.entries@[k as int].0@ == w);
                        }
                    }
                    assert forall|w: Seq<char>| #[trigger]
                        self.spec_count(w) == old(self).spec_count(w) + (if w == word@ {
                            1nat
                        } else {
                            0nat
                        }) by {
                        if self.contains_word(w) {
                            let j = self.index_of(w);
                            assert(0 <= j < self.entries@.len() && self.entries@[j].0@ == w);
                            self.lemma_count_at(j);
                            old(self).lemma_count_at(j);
                        }
                    }
                }
                return ;
            }
            k += 1;
        }
        proof {
            assert(!old(self).contains_word(word@));
        }
        self.entries.push((word, 1));
        proof {
            assert(self.entries@.drop_last() =~= es0);
            assert(self.entries@.last().1 == 1);
            assert forall|w: Seq<char>| #[trigger] self.contains_word(w) <==> (old(
                self,
            ).contains_word(w) || w == word@) by {
                if old(self).contains_word(w) {
                    let j = old(self).index_of(w);
                    assert(self.entries@[j].0@ == w);
                }
                if self.contains_word(w) {
                    let j = self.index_of(w);
                    if j < es0.len() {
                        assert(es0[j].0@ == w);
                    }
                }
                if w == word@ {
                    assert(self.entries@[es0.len() as int].0@ == w);
                }
            }
            assert(self.wf());
            assert forall|w: Seq<char>| #[trigger]
                self.spec_count(w) == old(self).spec_count(w) + (if w == word@ {
                    1nat
                } else {
                    0nat
                }) by {
                if self.contains_word(w) {
                    let j = self.index_of(w);
                    assert(0 <= j < self.entries@.len() && self.entries@[j].0@ == w);
                    self.lemma_count_at(j);
                    if j < es0.len() {
                        old(self).lemma_count_at(j);
                    }
                }
            }
        }
    }

    /// Sets the count of `word` to `count`, adding an entry when the word is
    /// new and replacing the recorded count when it is not.
    #[verifier::loop_isolation(false)]
    pub fn insert(&mut self, word: String, count: u32)
        requires
            old(self).wf(),
        ensures
            final(self).wf(),
            final(self).spec_count(word@) == count as nat,
            final(self).contains_word(word@),
            forall|w: Seq<char>|
                w != word@ ==> #[trigger] final(self).spec_count(w) == old(self).spec_count(w),
            forall|w: Seq<char>|
                w != word@ ==> (#[trigger] final(self).contains_word(w) <==> old(
                    self,
                ).contains_word(w)),
    {
        let ghost es0 = self.entries@;
        let n = self.entries.len();
        let mut k: usize = 0;
        while k < n
            invariant
                k <= n,
                n == self.entries@.len(),
                self == old(self),
                forall|m: int| 0 <= m < k ==> #[trigger] self.entries@[m].0@ != word@,
            decreases n - k,
        {
            if self.entries[k].0 == word {
                proof {
                    self.lemma_count_at(k as int);
                }
                self.entries[k] = (word, count);
                proof {
                    self.lemma_count_at(k as int);
                    assert forall|w: Seq<char>|
                        w != word@ implies (#[trigger] self.contains_word(w) <==> old(
                        self,
                    ).contains_word(w)) by {
                        if old(self).contains_word(w) {
                            let j = old(self).index_of(w);
                            assert(self.entries@[j].0@ == w);
                        }
                        if self.contains_word(w) {
                            let j = self.index_of(w);
                            assert(0 <= j < es0.len());
                            assert(es0[j].0@ == w);
                        }
                        if w == word@ {
                            assert(self.entries@[k as int].0@ == w);
                        }
                    }
                    assert forall|w: Seq<char>|
                        w != word@ implies #[trigger] self.spec_count(w) == old(
                        self,
                    ).spec_count(w) by {
                        if self.contains_word(w) {
                            let j = self.index_of(w);
                            self.lemma_count_at(j);
                            old(self).lemma_count_at(j);
                        }
                    }
                }
                return ;
            }
            k += 1;
        }
        self.entries.push((word, count));
        proof {
            assert(self.wf());
            self.lemma_count_at(es0.len() as int);
            assert forall|w: Seq<char>|
                w != word@ implies (#[trigger] self.contains_word(w) <==> old(
                self,
            ).contains_word(w)) by {
                if old(self).contains_word(w) {
                    let j = old(self).index_of(w);
                    assert(self.entries@[j].0@ == w);
                }
                if self.contains_word(w) {
                    let j = self.index_of(w);
                    if j < es0.len() {
                        assert(es0[j].0@ == w);
                    }
                }
            }
            assert forall|w: Seq<char>|
                w != word@ implies #[trigger] self.spec_count(w) == old(self).spec_count(
                w,
            ) by {
                if self.contains_word(w) {
                    let j = self.index_of(w);
                    assert(j < es0.len());
                    self.lemma_count_at(j);
                    old(self).lemma_count_at(j);
                }
            }
        }
    }
}

/// Tallies the whitespace-delimited words of `contents`: each word's
/// recorded count is how often it occurs among the tokens, a word has an
/// entry exactly when it occurs, and the counts add up to the number of
/// tokens.
#[verifier::loop_isolation(false)]
pub fn get_word_count(contents: &str) -> (m: FrequencyMap)
    requires
        contents@.len() <= u32::MAX,
    ensures
        m.wf(),
        forall|w: Seq<char>| #[trigger] m.spec_count(w) == occurrences(tokens(contents@), w),
        forall|w: Seq<char>|
            #[trigger] m.contains_word(w) <==> occurrences(tokens(contents@), w) > 0,
        m.total() == tokens(contents@).len(),
{
    let n = contents.unicode_len();
    let mut m = FrequencyMap::new();
    let ghost mut done: Seq<Seq<char>> = Seq::empty();
    proof {
        assert(contents@.skip(0) =~= contents@);
        assert(done + tokens(contents@.skip(0)) =~= tokens(contents@));
    }
    let mut i: usize = 0;
    while i < n
        invariant
            i <= n,
            n == contents@.len(),
            m.wf(),
            forall|w: Seq<char>| #[trigger] m.spec_count(w) == occurrences(done, w),
            forall|w: Seq<char>| #[trigger] m.contains_word(w) <==> occurrences(done, w) > 0,
            m.total() == done.len(),
            done.len() <= i,
            tokens(contents@) == done + tokens(contents@.skip(i as int)),
        decreases n - i,
    {
        let c = contents.get_char(i);
        if is_whitespace_char(c) {
            proof {
                lemma_tokens_skip_ws(contents@, i as int);
            }
            i += 1;
        } else {
            let start = i;
            let mut j = start + 1;
            while j < n && !is_whitespace_char(contents.get_char(j))
                invariant
                    start < j <= n,
                    forall|t: int| start <= t < j ==> !is_ws(#[trigger] contents@[t]),
                decreases n - j,
            {
                j += 1;
            }
            let word = contents.substring_char(start, j).to_owned();
            let ghost tok = contents@.subrange(start as int, j as int);
            proof {
                lemma_tokens_step(contents@, start as int, j as int);
                lemma_occurrences_le(done, word@);
            }
            m.increment(word);
            proof {
                lemma_occurrences_push(done, tok);
                assert(done.push(tok) + tokens(contents@.skip(j as int)) =~= done + (seq![tok]
                    + tokens(contents@.skip(j as int))));
                done = done.push(tok);
            }
            i = j;
        }
    }
    proof {
        assert(contents@.skip(n as int) =~= Seq::<char>::empty());
        assert(tokens(contents@.skip(n as int)) == Seq::<Seq<char>>::empty());
        assert(done + tokens(contents@.skip(n as int)) =~= done);
    }
    m
}

/// Counts how often the exact word `text` occurs among the
/// whitespace-delimited tokens of `contents`, by scanning the text itself.
#[verifier::loop_isolation(false)]
pub fn get_search_count(text: &str, contents: &str) -> (count: u32)
    requires
        contents@.len() <= u32::MAX,
    ensures
        count as nat == occurrences(tokens(contents@), text@),
{
    let n = contents.unicode_len();
    let mut count: u32 = 0;
    let ghost mut done: Seq<Seq<char>> = Seq::empty();
    proof {
        assert(contents@.skip(0) =~= contents@);
        assert(done + tokens(contents@.skip(0)) =~= tokens(contents@));
    }
    let mut i: usize = 0;
    while i < n
        invariant
            i <= n,
            n == contents@.len(),
            count as nat == occurrences(done, text@),
            done.len() <= i,
            tokens(contents@) == done + tokens(contents@.skip(i as int)),
        decreases n - i,
    {
        let c = contents.get_char(i);
        if is_whitespace_char(c) {
            proof {
                lemma_tokens_skip_ws(contents@, i as int);
            }
            i += 1;
        } else {
            let start = i;
            let mut j = start + 1;
            while j < n && !is_whitespace_char(contents.get_char(j))
                invariant
                    start < j <= n,
                    forall|t: int| start <= t < j ==> !is_ws(#[trigger] contents@[t]),
                decreases n - j,
            {
                j += 1;
            }
            let word = contents.substring_char(start, j);
            let ghost tok = contents@.subrange(start as int, j as int);
            proof {
                lemma_tokens_step(contents@, start as int, j as int);
                lemma_occurrences_le(done, text@);
                lemma_occurrences_push(done, tok);
                assert(done.push(tok) + tokens(contents@.skip(j as int)) =~= done + (seq![tok]
                    + tokens(contents@.skip(j as int))));
            }
            if str_eq(word, text) {
                count += 1;
            }
            proof {
                done = done.push(tok);
            }
            i = j;
        }
    }
    proof {
        assert(contents@.skip(n as int) =~= Seq::<char>::empty());
        assert(tokens(contents@.skip(n as int)) == Seq::<Seq<char>>::empty());
        assert(done + tokens(contents@.skip(n as int)) =~= done);
    }
    count
}

/// Replacing one entry changes the total by the difference of the counts.
proof fn lemma_sum_counts_update(es: Seq<(String, u32)>, i: int, e: (String, u32))
    requires
        0 <= i < es.len(),
    ensures
        sum_counts(es.update(i, e)) + es[i].1 == sum_counts(es) + e.1,
    decreases es.len(),
{
    if i == es.len() - 1 {
        assert(es.update(i, e).drop_last() =~= es.drop_last());
        assert(es.update(i, e).last() == e);
    } else {
        assert(es.update(i, e).drop_last() =~= es.drop_last().update(i, e));
        assert(es.update(i, e).last() == es.last());
        lemma_sum_counts_update(es.drop_last(), i, e);
    }
}

} // verus!

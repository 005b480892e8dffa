//! One run of the tool, as a pure computation: the options it takes and the
//! report it produces. Reading the input file, printing, timing and writing
//! an output file stay outside the library.

use vstd::prelude::*;

use crate::counter::get_search_count;
use crate::counter::get_word_count;
use crate::counter::FrequencyMap;
use crate::ranker::get_max_word;
use crate::ranker::ranked_take;
use crate::ranker::sort_hashmap;
use crate::ranker::sorted_by_count;
use crate::ranker::top_n;
use crate::tokenize::lemma_occurrences_le;
use crate::tokenize::occurrences;
use crate::tokenize::tokens;

verus! {

/// The options of one run.
pub struct Opt {
    /// Show at most this many entries of the ranked list.
    pub top: usize,
    /// Path of the input file; only read outside the library.
    pub input: String,
    /// Rank with the smallest counts first instead of the greatest.
    pub reverse: bool,
    /// Report one word's count instead of the ranked list.
    pub search: Option<String>,
    /// Also report an entry with the greatest count.
    pub show_max: bool,
    /// Also report how long the run took; measured outside the library.
    pub duration: bool,
    /// Write the report to this file instead of standard output.
    pub output: Option<String>,
}

/// What one run reports.
pub enum Report {
    /// The searched word and how often it occurs.
    Search { word: String, count: u32 },
    /// The ranked rows to display and, when asked for, an entry with the
    /// greatest count.
    Listing { rows: Vec<(String, u32)>, max: Option<(String, u32)> },
}

/// Whether some row of `rows` holds the word `w`.
pub open spec fn word_in_rows(rows: Seq<(String, u32)>, w: Seq<char>) -> bool {
    exists|t: int| 0 <= t < rows.len() && (#[trigger] rows[t]).0@ == w
}

/// The rows are the ranked listing of the text `s`, cut to `top` entries:
/// every row pairs a word of the text with its occurrence count; no word
/// appears twice; the rows are ordered by count, smallest first when
/// `reverse` asks for it and greatest first otherwise; at most `top` rows
/// are shown; every word of the text is shown unless the limit cut the
/// list; and no shown row ranks behind a word the limit cut away.
pub open spec fn listing_ok(
    rows: Seq<(String, u32)>,
    s: Seq<char>,
    top: int,
    reverse: bool,
) -> bool {
    &&& forall|t: int|
        0 <= t < rows.len() ==> occurrences(tokens(s), (#[trigger] rows[t]).0@) == rows[t].1 as nat
            && rows[t].1 > 0
    &&& forall|t: int, u: int|
        #![trigger rows[t], rows[u]]
        0 <= t < u < rows.len() ==> rows[t].0@ != rows[u].0@
    &&& forall|t: int, u: int|
        #![trigger rows[t], rows[u]]
        0 <= t <= u < rows.len() ==> (if reverse {
            rows[t].1 <= rows[u].1
        } else {
            rows[t].1 >= rows[u].1
        })
    &&& rows.len() <= top
    &&& forall|w: Seq<char>|
        #![trigger occurrences(tokens(s), w)]
        occurrences(tokens(s), w) > 0 && rows.len() < top ==> word_in_rows(rows, w)
    &&& forall|w: Seq<char>, t: int|
        #![trigger occurrences(tokens(s), w), rows[t]]
        occurrences(tokens(s), w) > 0 && !word_in_rows(rows, w) && 0 <= t < rows.len() ==> (if reverse {
            rows[t].1 as nat <= occurrences(tokens(s), w)
        } else {
            rows[t].1 as nat >= occurrences(tokens(s), w)
        })
}

/// The report `r` is the right one for the text `s` under the options
/// `opt`: the searched word's count when a search is asked for, otherwise
/// the ranked listing, with an entry of greatest count beside it exactly
/// when `opt.show_max` asks for one and the text has words at all.
pub open spec fn report_ok(r: Report, s: Seq<char>, opt: Opt) -> bool {
    match opt.search {
        Some(q) => match r {
            Report::Search { word, count } => word@ == q@ && count as nat == occurrences(
                tokens(s),
                q@,
            ),
            Report::Listing { .. } => false,
        },
        None => match r {
            Report::Search { .. } => false,
            Report::Listing { rows, max } => {
                &&& listing_ok(rows@, s, opt.top as int, opt.reverse)
                &&& opt.show_max ==> {
                    &&& (max is Some <==> tokens(s).len() > 0)
                    &&& match max {
                        Some(p) => occurrences(tokens(s), p.0@) == p.1 as nat && p.1 > 0
                            && forall|w: Seq<char>|
                            #[trigger] occurrences(tokens(s), w) <= p.1 as nat,
                        None => true,
                    }
                }
                &&& !opt.show_max ==> max is None
            },
        },
    }
}

/// A well-formed tally whose counts are the occurrence counts of the text,
/// sorted and cut as `ranked_take` says, yields a correct listing.
#[verifier::rlimit(100)]
proof fn lemma_listing(
    map: FrequencyMap,
    s: Seq<char>,
    sorted: Seq<(String, u32)>,
    rows: Seq<(String, u32)>,
    top: int,
    reverse: bool,
)
    requires
        map.wf(),
        forall|w: Seq<char>| #[trigger] map.spec_count(w) == occurrences(tokens(s), w),
        forall|w: Seq<char>| #[trigger] map.contains_word(w) <==> occurrences(tokens(s), w) > 0,
        sorted_by_count(sorted),
        sorted.to_multiset() == map.entries@.to_multiset(),
        rows == ranked_take(sorted, top, !reverse),
        top >= 0,
    ensures
        listing_ok(rows, s, top, reverse),
{
    broadcast use vstd::seq_lib::group_to_multiset_ensures;

    let es = map.entries@;
    let len = sorted.len() as int;
    es.to_multiset_ensures();
    sorted.to_multiset_ensures();
    assert(es.len() == len);

    // Every entry of the sorted list is an entry of the map, and the other
    // way round.
    assert forall|t: int| #![trigger sorted[t]] 0 <= t < len implies exists|i: int|
        0 <= i < es.len() && #[trigger] es[i] == sorted[t] by {
        assert(sorted.contains(sorted[t]));
        assert(sorted.to_multiset().count(sorted[t]) > 0);
        assert(es.contains(sorted[t]));
    }
    assert forall|i: int| #![trigger es[i]] 0 <= i < es.len() implies exists|t: int|
        0 <= t < len && #[trigger] sorted[t] == es[i] by {
        assert(es.contains(es[i]));
        assert(es.to_multiset().count(es[i]) > 0);
        assert(sorted.contains(es[i]));
    }

    // The map's entries are pairwise distinct, so the sorted list repeats no
    // entry, and hence no word.
    assert(es.no_duplicates()) by {
        assert forall|i: int, j: int| #![trigger es[i], es[j]] 0 <= i < j < es.len() implies es[i]
            != es[j] by {
            assert(es[i].0@ != es[j].0@);
        }
    }
    es.lemma_multiset_has_no_duplicates();
    sorted.lemma_multiset_has_no_duplicates_conv();
    assert forall|a: int, b: int| 0 <= a < b < len implies (#[trigger] sorted[a]).0@ != (
    #[trigger] sorted[b]).0@ by {
        if sorted[a].0@ == sorted[b].0@ {
            assert(sorted[a] != sorted[b]);
            let i = choose|i: int| 0 <= i < es.len() && es[i] == sorted[a];
            let j = choose|j: int| 0 <= j < es.len() && es[j] == sorted[b];
            assert(i != j);
            assert(es[i].0@ != es[j].0@);
        }
    }

    // Where each row stands in the sorted list.
    let m = rows.len() as int;
    assert(m == if top <= len {
        top
    } else {
        len
    });
    assert forall|t: int| #![trigger rows[t]] 0 <= t < m implies rows[t] == sorted[
        if reverse {
            t
        } else {
            len - 1 - t
        }
    ] by {}

    // Each row is an entry of the map, so its count is its word's
    // occurrence count, which is positive.
    assert forall|t: int|
        #![trigger rows[t]]
        0 <= t < m implies occurrences(tokens(s), rows[t].0@) == rows[t].1 as nat && rows[t].1
        > 0 by {
        let a = if reverse {
            t
        } else {
            len - 1 - t
        };
        let i = choose|i: int| 0 <= i < es.len() && es[i] == sorted[a];
        map.lemma_count_at(i);
        assert(map.spec_count(rows[t].0@) == rows[t].1 as nat);
        assert(map.contains_word(rows[t].0@));
    }

    // No word appears on two rows.
    assert forall|t: int, u: int|
        #![trigger rows[t], rows[u]]
        0 <= t < u < m implies rows[t].0@ != rows[u].0@ by {
        let a = if reverse {
            t
        } else {
            len - 1 - t
        };
        let b = if reverse {
            u
        } else {
            len - 1 - u
        };
        assert(rows[t] == sorted[a] && rows[u] == sorted[b]);
    }

    // The rows are ordered by count.
    assert forall|t: int, u: int|
        #![trigger rows[t], rows[u]]
        0 <= t <= u < m implies (if reverse {
        rows[t].1 <= rows[u].1
    } else {
        rows[t].1 >= rows[u].1
    }) by {
        if reverse {
            assert(sorted[t].1 <= sorted[u].1);
        } else {
            assert(sorted[len - 1 - u].1 <= sorted[len - 1 - t].1);
        }
    }

    // Words fall off the listing only when the limit cuts it.
    assert forall|w: Seq<char>|
        #![trigger occurrences(tokens(s), w)]
        occurrences(tokens(s), w) > 0 && m < top implies word_in_rows(rows, w) by {
        assert(map.contains_word(w));
        map.lemma_index_of(w);
        let i = map.index_of(w);
        let a = choose|a: int| 0 <= a < len && sorted[a] == es[i];
        let t = if reverse {
            a
        } else {
            len - 1 - a
        };
        assert(m == len);
        assert(rows[t] == sorted[a]);
        assert(rows[t].0@ == w);
    }

    // Every shown row ranks at least as well as any word the limit cut.
    assert forall|w: Seq<char>, t: int|
        #![trigger occurrences(tokens(s), w), rows[t]]
        occurrences(tokens(s), w) > 0 && !word_in_rows(rows, w) && 0 <= t < m implies (if reverse {
        rows[t].1 as nat <= occurrences(tokens(s), w)
    } else {
        rows[t].1 as nat >= occurrences(tokens(s), w)
    }) by {
        assert(map.contains_word(w));
        map.lemma_index_of(w);
        let i = map.index_of(w);
        assert(es[i].1 as nat == occurrences(tokens(s), w));
        let a = choose|a: int| 0 <= a < len && sorted[a] == es[i];
        let ta = if reverse {
            a
        } else {
            len - 1 - a
        };
        assert(0 <= ta < len);
        if ta < m {
            assert(rows[ta] == sorted[a]);
            assert(word_in_rows(rows, w));
        }
        assert(ta >= m);
        if reverse {
            assert(rows[t] == sorted[t]);
            assert(sorted[t].1 <= sorted[a].1);
        } else {
            assert(rows[t] == sorted[len - 1 - t]);
            assert(a < len - 1 - t);
            assert(sorted[a].1 <= sorted[len - 1 - t].1);
        }
    }
}

/// The tally of a text has an entry exactly when the text has a word.
proof fn lemma_has_words(map: FrequencyMap, s: Seq<char>)
    requires
        map.wf(),
        forall|w: Seq<char>| #[trigger] map.spec_count(w) == occurrences(tokens(s), w),
        forall|w: Seq<char>| #[trigger] map.contains_word(w) <==> occurrences(tokens(s), w) > 0,
    ensures
        map.entries@.len() > 0 <==> tokens(s).len() > 0,
{
    let ts = tokens(s);
    if ts.len() > 0 {
        assert(occurrences(ts, ts.last()) == occurrences(ts.drop_last(), ts.last()) + 1);
        assert(map.contains_word(ts.last()));
        let i = map.index_of(ts.last());
        assert(0 <= i < map.entries@.len());
    }
    if map.entries@.len() > 0 {
        map.lemma_count_at(0);
        assert(map.contains_word(map.entries@[0].0@));
        let w = map.entries@[0].0@;
        assert(occurrences(ts, w) > 0);
        lemma_occurrences_le(ts, w);
    }
}

/// Computes the report of one run over the text `contents`: the searched
/// word's count when `opt.search` gives one; otherwise the ranked listing,
/// greatest counts first unless `opt.reverse` asks for the smallest first,
/// cut to `opt.top` rows, with an entry of greatest count beside it when
/// `opt.show_max` asks for one. The text has such an entry exactly when it
/// has words at all; the caller decides how to report its absence.
pub fn build_report(contents: &str, opt: &Opt) -> (r: Report)
    requires
        contents@.len() <= u32::MAX,
    ensures
        report_ok(r, contents@, *opt),
{
    match &opt.search {
        Some(q) => {
            let count = get_search_count(q.as_str(), contents);
            Report::Search { word: q.clone(), count }
        },
        None => {
            let counts = get_word_count(contents);
            let sorted = sort_hashmap(&counts);
            let rows = top_n(&sorted, opt.top, !opt.reverse);
            proof {
                lemma_listing(
                    counts,
                    contents@,
                    sorted@,
                    rows@,
                    opt.top as int,
                    opt.reverse,
                );
            }
            let max = if opt.show_max {
                let found = get_max_word(&counts);
                proof {
                    lemma_has_words(counts, contents@);
                    if found is Some {
                        let p = found->Some_0;
                        assert(counts.contains_word(p.0@));
                        assert forall|w: Seq<char>| #[trigger] occurrences(tokens(contents@), w)
                            <= p.1 as nat by {
                            assert(counts.spec_count(w) == occurrences(tokens(contents@), w));
                        }
                    }
                }
                found
            } else {
                None
            };
            Report::Listing { rows, max }
        },
    }
}

} // verus!

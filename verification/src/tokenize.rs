//! The tokenization model: what counts as whitespace, and how a text is
//! split into whitespace-delimited words.

use vstd::prelude::*;

verus! {

/// A whitespace character: the Unicode `White_Space` set, the characters
/// that `char::is_whitespace` accepts.
pub open spec fn is_ws(c: char) -> bool {
    ||| c == ' '
    ||| c == '\t'
    ||| c == '\n'
    ||| c == '\u{0B}'
    ||| c == '\u{0C}'
    ||| c == '\r'
    ||| c == '\u{85}'
    ||| c == '\u{A0}'
    ||| c == '\u{1680}'
    ||| c == '\u{2000}'
    ||| c == '\u{2001}'
    ||| c == '\u{2002}'
    ||| c == '\u{2003}'
    ||| c == '\u{2004}'
    ||| c == '\u{2005}'
    ||| c == '\u{2006}'
    ||| c == '\u{2007}'
    ||| c == '\u{2008}'
    ||| c == '\u{2009}'
    ||| c == '\u{200A}'
    ||| c == '\u{2028}'
    ||| c == '\u{2029}'
    ||| c == '\u{202F}'
    ||| c == '\u{205F}'
    ||| c == '\u{3000}'
}

/// Decides whether `c` is whitespace in the sense of `is_ws`.
pub fn is_whitespace_char(c: char) -> (r: bool)
    ensures
        r == is_ws(c),
{
    match c {
        ' ' | '\t' | '\n' | '\u{0B}' | '\u{0C}' | '\r' | '\u{85}' | '\u{A0}' | '\u{1680}'
        | '\u{2000}' | '\u{2001}' | '\u{2002}' | '\u{2003}' | '\u{2004}' | '\u{2005}'
        | '\u{2006}' | '\u{2007}' | '\u{2008}' | '\u{2009}' | '\u{200A}' | '\u{2028}'
        | '\u{2029}' | '\u{202F}' | '\u{205F}' | '\u{3000}' => true,
        _ => false,
    }
}

/// Length of the longest whitespace-free prefix of `s`: where the first
/// token of `s` ends, when `s` starts with a token.
pub open spec fn token_len(s: Seq<char>) -> nat
    decreases s.len(),
{
    if s.len() == 0 || is_ws(s[0]) {
        0
    } else {
        1 + token_len(s.drop_first())
    }
}

pub proof fn lemma_token_len_le(s: Seq<char>)
    ensures
        token_len(s) <= s.len(),
    decreases s.len(),
{
    if s.len() > 0 && !is_ws(s[0]) {
        lemma_token_len_le(s.drop_first());
    }
}

/// The whitespace-delimited words of `s`, in order of occurrence: each is a
/// maximal run of non-whitespace characters, so none is empty.
pub open spec fn tokens(s: Seq<char>) -> Seq<Seq<char>>
    decreases s.len(),
    via tokens_decreases
{
    if s.len() == 0 {
        Seq::empty()
    } else if is_ws(s[0]) {
        tokens(s.drop_first())
    } else {
        seq![s.take(token_len(s) as int)] + tokens(s.skip(token_len(s) as int))
    }
}

#[via_fn]
proof fn tokens_decreases(s: Seq<char>) {
    if s.len() > 0 && !is_ws(s[0]) {
        lemma_token_len_le(s);
    }
}

/// Skipping a whitespace character does not change the tokens that follow.
pub proof fn lemma_tokens_skip_ws(s: Seq<char>, i: int)
    requires
        0 <= i < s.len(),
        is_ws(s[i]),
    ensures
        tokens(s.skip(i)) == tokens(s.skip(i + 1)),
{
    let t = s.skip(i);
    assert(t[0] == s[i]);
    assert(t.drop_first() =~= s.skip(i + 1));
}

/// `token_len` is exactly the position of the first whitespace character.
pub proof fn lemma_token_len_exact(t: Seq<char>, k: int)
    requires
        0 <= k <= t.len(),
        forall|m: int| 0 <= m < k ==> !is_ws(#[trigger] t[m]),
        k == t.len() || is_ws(t[k]),
    ensures
        token_len(t) == k,
    decreases k,
{
    if k > 0 {
        assert(!is_ws(t[0]));
        assert forall|m: int| 0 <= m < k - 1 implies !is_ws(#[trigger] t.drop_first()[m]) by {
            assert(t.drop_first()[m] == t[m + 1]);
        }
        if k < t.len() {
            assert(t.drop_first()[k - 1] == t[k]);
        }
        lemma_token_len_exact(t.drop_first(), k - 1);
    }
}

/// At the start of a token that runs from `i` up to but not including `j`,
/// the tokens of the rest of the text are that token followed by the tokens
/// after position `j`.
pub proof fn lemma_tokens_step(s: Seq<char>, i: int, j: int)
    requires
        0 <= i < j <= s.len(),
        forall|m: int| i <= m < j ==> !is_ws(#[trigger] s[m]),
        j == s.len() || is_ws(s[j]),
    ensures
        tokens(s.skip(i)) == seq![s.subrange(i, j)] + tokens(s.skip(j)),
{
    let t = s.skip(i);
    assert forall|m: int| 0 <= m < j - i implies !is_ws(#[trigger] t[m]) by {
        assert(t[m] == s[i + m]);
    }
    if j < s.len() {
        assert(t[j - i] == s[j]);
    }
    lemma_token_len_exact(t, j - i);
    assert(!is_ws(t[0]));
    assert(tokens(t) == seq![t.take(j - i)] + tokens(t.skip(j - i)));
    assert(t.take(j - i) =~= s.subrange(i, j));
    assert(t.skip(j - i) =~= s.skip(j));
}

/// How often the word `w` occurs among the tokens `ts`.
pub open spec fn occurrences(ts: Seq<Seq<char>>, w: Seq<char>) -> nat
    decreases ts.len(),
{
    if ts.len() == 0 {
        0
    } else {
        occurrences(ts.drop_last(), w) + (if ts.last() == w {
            1nat
        } else {
            0nat
        })
    }
}

/// A word occurs at most as often as there are tokens.
pub proof fn lemma_occurrences_le(ts: Seq<Seq<char>>, w: Seq<char>)
    ensures
        occurrences(ts, w) <= ts.len(),
    decreases ts.len(),
{
    if ts.len() > 0 {
        lemma_occurrences_le(ts.drop_last(), w);
    }
}

/// Appending one token raises its own occurrence count by one and leaves
/// every other count unchanged.
pub proof fn lemma_occurrences_push(ts: Seq<Seq<char>>, t: Seq<char>)
    ensures
        forall|w: Seq<char>| #[trigger] occurrences(ts.push(t), w) == occurrences(ts, w) + (if t
            == w {
            1nat
        } else {
            0nat
        }),
{
    assert forall|w: Seq<char>| #[trigger] occurrences(ts.push(t), w) == occurrences(ts, w) + (if t
        == w {
        1nat
    } else {
        0nat
    }) by {
        assert(ts.push(t).drop_last() =~= ts);
        assert(ts.push(t).last() == t);
    }
}

/// Decides whether two string slices hold the same characters.
pub fn str_eq(a: &str, b: &str) -> (r: bool)
    ensures
        r == (a@ == b@),
{
    let na = a.unicode_len();
    let nb = b.unicode_len();
    if na != nb {
        return false;
    }
    let mut i: usize = 0;
    while i < na
        invariant
            i <= na,
            na == a@.len(),
            na == b@.len(),
            forall|m: int| 0 <= m < i ==> a@[m] == b@[m],
        decreases na - i,
    {
        let ca = a.get_char(i);
        let cb = b.get_char(i);
        if ca != cb {
            return false;
        }
        i += 1;
    }
    proof {
        assert(a@ =~= b@);
    }
    true
}

} // verus!

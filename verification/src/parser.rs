//! A bare-bones query splitter: strip the keywords, take the last word as
//! the file, the rest as columns.
//!
//! Every occurrence of `SELECT` and then of `FROM` is removed from the
//! query text (as a plain substring, wherever it stands); what remains is
//! split on whitespace. The last word names the data file and the words
//! before it are the column texts. The query must leave at least one word
//! after the removals.

use vstd::prelude::*;

use crate::text::ws_tokens;
use vstd::string::StrSliceExecFns;
use vstd::string::StringExecFns;

verus! {

/// `s` with every occurrence of `p` removed, scanning left to right.
pub open spec fn removed_all(s: Seq<char>, p: Seq<char>) -> Seq<char>
    decreases s.len(),
{
    if p.len() == 0 || s.len() < p.len() {
        s
    } else if s.take(p.len() as int) == p {
        removed_all(s.skip(p.len() as int), p)
    } else {
        seq![s[0]] + removed_all(s.drop_first(), p)
    }
}

/// Whether `s` holds `p` starting at index `i`.
fn matches_at(s: &str, p: &str, i: usize) -> (r: bool)
    requires
        i + p@.len() <= s@.len(),
    ensures
        r == (s@.subrange(i as int, i + p@.len()) == p@),
{
    let np = p.unicode_len();
    let n = s.unicode_len();
    let mut k: usize = 0;
    while k < np
        invariant
            k <= np,
            np == p@.len(),
            n == s@.len(),
            i + np <= n,
            forall|j: int| 0 <= j < k ==> s@[i + j] == p@[j],
        decreases np - k,
    {
        if s.get_char(i + k) != p.get_char(k) {
            proof {
                assert(s@.subrange(i as int, i + np)[k as int] == s@[i + k]);
            }
            return false;
        }
        k = k + 1;
    }
    proof {
        assert(s@.subrange(i as int, i + np) =~= p@);
    }
    true
}

/// `s` with every occurrence of `p` removed.
fn remove_all(s: &str, p: &str) -> (r: String)
    requires
        p@.len() > 0,
    ensures
        r@ == removed_all(s@, p@),
{
    let n = s.unicode_len();
    let np = p.unicode_len();
    let mut out = String::new();
    let mut i: usize = 0;
    proof {
        assert(s@.skip(0) =~= s@);
    }
    while i < n
        invariant
            i <= n,
            n == s@.len(),
            np == p@.len(),
            np > 0,
            removed_all(s@, p@) == out@ + removed_all(s@.skip(i as int), p@),
        decreases n - i,
    {
        let ghost sfx = s@.skip(i as int);
        if np <= n - i && matches_at(s, p, i) {
            proof {
                assert(sfx.take(np as int) =~= s@.subrange(i as int, i + np));
                assert(sfx.skip(np as int) =~= s@.skip(i + np));
            }
            i = i + np;
        } else {
            let piece = s.substring_char(i, i + 1);
            proof {
                if i + np <= n {
                    assert(sfx.take(np as int) =~= s@.subrange(i as int, i + np));
                }
                assert(piece@ =~= seq![s@[i as int]]);
                assert(sfx.drop_first() =~= s@.skip(i + 1));
                assert(removed_all(sfx, p@) == seq![sfx[0]] + removed_all(s@.skip(i + 1), p@));
            }
            out.append(piece);
            i = i + 1;
        }
    }
    proof {
        assert(s@.skip(n as int) =~= Seq::<char>::empty());
        assert(out@ + Seq::<char>::empty() =~= out@);
    }
    out
}

/// The words of the query after removing the `SELECT` and `FROM` keywords.
pub open spec fn query_words(query: Seq<char>) -> Seq<Seq<char>> {
    ws_tokens(removed_all(removed_all(query, "SELECT"@), "FROM"@))
}

/// Splits a query into its column texts and its data file: the keywords
/// are removed, the last remaining word is the file, the words before it
/// are the columns.
pub fn parse_query(query: &str) -> (r: (Vec<String>, String))
    requires
        query_words(query@).len() >= 1,
    ensures
        r.0.deep_view() == query_words(query@).take(query_words(query@).len() - 1),
        r.1@ == query_words(query@).last(),
{
    proof {
        reveal_strlit("SELECT");
        reveal_strlit("FROM");
    }
    let stripped = remove_all(&remove_all(query, "SELECT").as_str(), "FROM");
    let words = crate::text::split_whitespace_words(stripped.as_str());
    let m = words.len();
    proof {
        assert(words.deep_view().len() == m);
    }
    let file = words[m - 1].clone();
    let mut columns: Vec<String> = Vec::new();
    let mut i: usize = 0;
    while i < m - 1
        invariant
            i <= m - 1,
            m == words@.len(),
            m >= 1,
            words.deep_view() == query_words(query@),
            columns.deep_view() == words.deep_view().take(i as int),
        decreases m - 1 - i,
    {
        let w = words[i].clone();
        let ghost pre = columns.deep_view();
        columns.push(w);
        proof {
            assert(columns.deep_view() =~~= pre.push(words.deep_view()[i as int]));
            assert(words.deep_view().take(i + 1) =~~= words.deep_view().take(i as int).push(
                words.deep_view()[i as int],
            ));
        }
        i = i + 1;
    }
    proof {
        assert(file@ == words.deep_view()[m - 1]);
    }
    (columns, file)
}

} // verus!

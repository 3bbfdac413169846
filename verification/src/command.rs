//! The parsed query and the two-phase resolution of aggregate columns.
//!
//! A query arrives as a [`ParsedCommand`]: the selected column texts, the
//! data file, and an optional condition. Before a scan, each column text is
//! resolved against the file's headers into a [`ResolvedColumn`]: a tagged
//! aggregate kind and the header index that feeds it. `COUNT(*)` is bound
//! to the first header at this step, so the raw command is never rewritten
//! and the printed labels always echo the query text verbatim.

use vstd::prelude::*;

use crate::seqtools::{find_elem, find_pred, lemma_find_pred_at, lemma_find_pred_none};
use crate::text::str_eq;
use vstd::string::StrSliceExecFns;

verus! {

/// The parsed components of a query: selected columns or aggregate calls,
/// the data file, and an optional row condition.
#[derive(Debug)]
pub struct ParsedCommand {
    /// Selected columns or aggregate functions, verbatim.
    pub columns: Vec<String>,
    /// Name of the CSV file to read.
    pub data_file: String,
    /// Optional condition for filtering rows.
    pub condition: Option<String>,
}

impl ParsedCommand {
    /// The condition as a character sequence, if one was given.
    pub open spec fn condition_view(&self) -> Option<Seq<char>> {
        match self.condition {
            None => None,
            Some(ref c) => Some(c@),
        }
    }
}

/// Whether `s` starts with `p`.
pub open spec fn has_prefix(s: Seq<char>, p: Seq<char>) -> bool {
    s.len() >= p.len() && s.take(p.len() as int) == p
}

/// Whether `s` starts with `p`, on string slices.
pub fn str_has_prefix(s: &str, p: &str) -> (r: bool)
    ensures
        r == has_prefix(s@, p@),
{
    let np = p.unicode_len();
    if s.unicode_len() < np {
        return false;
    }
    let mut i: usize = 0;
    while i < np
        invariant
            i <= np,
            np == p@.len(),
            np <= s@.len(),
            forall|j: int| 0 <= j < i ==> s@[j] == p@[j],
        decreases np - i,
    {
        if s.get_char(i) != p.get_char(i) {
            assert(s@.take(np as int)[i as int] != p@[i as int]);
            return false;
        }
        i = i + 1;
    }
    proof {
        assert(s@.take(np as int) =~= p@);
    }
    true
}

/// The five aggregate kinds.
#[derive(Clone, Copy, Debug, PartialEq, Eq)]
pub enum AggKind {
    /// Running total.
    Sum,
    /// Running total and count; the mean.
    Avg,
    /// Smallest value seen.
    Min,
    /// Largest value seen.
    Max,
    /// How many values were seen.
    Count,
}

/// The aggregate kind that a column text calls for, or `None` for a plain
/// column.
pub open spec fn agg_kind_of(c: Seq<char>) -> Option<AggKind> {
    if c == "COUNT(*)"@ {
        Some(AggKind::Count)
    } else if has_prefix(c, "SUM("@) {
        Some(AggKind::Sum)
    } else if has_prefix(c, "AVG("@) {
        Some(AggKind::Avg)
    } else if has_prefix(c, "MIN("@) {
        Some(AggKind::Min)
    } else if has_prefix(c, "MAX("@) {
        Some(AggKind::Max)
    } else if has_prefix(c, "COUNT("@) {
        Some(AggKind::Count)
    } else {
        None
    }
}

/// Whether a column text is an aggregate call.
pub open spec fn is_aggregate_spec(c: Seq<char>) -> bool {
    agg_kind_of(c) is Some
}

/// Whether `column` specifies an aggregate function: `COUNT(*)` or a call
/// of `SUM`, `AVG`, `MIN`, `MAX` or `COUNT`.
pub fn is_aggregate_function(column: &str) -> (r: bool)
    ensures
        r == is_aggregate_spec(column@),
{
    str_eq(column, "COUNT(*)") || str_has_prefix(column, "SUM(") || str_has_prefix(column, "AVG(")
        || str_has_prefix(column, "MIN(") || str_has_prefix(column, "MAX(") || str_has_prefix(
        column,
        "COUNT(",
    )
}

/// Whether `c` is a parenthesis.
pub open spec fn is_paren(c: char) -> bool {
    c == '(' || c == ')'
}

/// The length of the aggregate call's name-and-paren prefix.
pub open spec fn agg_prefix_len(c: Seq<char>) -> int {
    if has_prefix(c, "SUM("@) || has_prefix(c, "AVG("@) || has_prefix(c, "MIN("@) || has_prefix(
        c,
        "MAX("@,
    ) {
        4
    } else {
        6
    }
}

/// The target column named inside an aggregate call: the text after the
/// opening parenthesis, up to the next parenthesis or the end.
pub open spec fn agg_target_of(c: Seq<char>) -> Seq<char> {
    let rest = c.skip(agg_prefix_len(c));
    match find_pred(rest, |ch: char| is_paren(ch)) {
        None => rest,
        Some(j) => rest.take(j),
    }
}

/// The header index that feeds an aggregate column: the first header of
/// that exact name, and the first header of all for `COUNT(*)`.
pub open spec fn resolve_target(c: Seq<char>, headers: Seq<Seq<char>>) -> Option<int> {
    if c == "COUNT(*)"@ {
        if headers.len() > 0 {
            Some(0)
        } else {
            None
        }
    } else {
        find_elem(headers, agg_target_of(c))
    }
}

/// A column of a query after header-bound resolution.
#[derive(Clone, Copy, Debug)]
pub struct ResolvedColumn {
    /// The aggregate kind, or `None` for a plain column.
    pub kind: Option<AggKind>,
    /// The header index feeding the aggregate, when its target matches one.
    pub target: Option<usize>,
}

impl ResolvedColumn {
    /// What resolution of the column text `c` against `headers` must yield.
    pub open spec fn resolves(self, c: Seq<char>, headers: Seq<Seq<char>>) -> bool {
        &&& self.kind == agg_kind_of(c)
        &&& self.kind is Some ==> match resolve_target(c, headers) {
            None => self.target is None,
            Some(i) => self.target == Some(i as usize),
        }
    }
}

/// Whether the character at index `j` of `s` is a parenthesis.
fn paren_at(s: &str, j: usize) -> (r: bool)
    requires
        j < s@.len(),
    ensures
        r == is_paren(s@[j as int]),
{
    let c = s.get_char(j);
    c == '(' || c == ')'
}

/// Finds the first header with exactly the given name.
pub fn find_header(headers: &Vec<String>, name: &str) -> (r: Option<usize>)
    ensures
        match r {
            None => find_elem(headers.deep_view(), name@) is None,
            Some(i) => find_elem(headers.deep_view(), name@) == Some(i as int) && i
                < headers.len(),
        },
{
    let mut i: usize = 0;
    while i < headers.len()
        invariant
            i <= headers@.len(),
            forall|j: int| 0 <= j < i ==> headers.deep_view()[j] != name@,
        decreases headers@.len() - i,
    {
        if str_eq(headers[i].as_str(), name) {
            proof {
                crate::seqtools::lemma_find_elem_at(headers.deep_view(), name@, i as int);
            }
            return Some(i);
        }
        i = i + 1;
    }
    proof {
        crate::seqtools::lemma_find_elem_none(headers.deep_view(), name@);
    }
    None
}

/// Resolves one column text against the headers.
pub fn resolve_column(column: &String, headers: &Vec<String>) -> (r: ResolvedColumn)
    ensures
        r.resolves(column@, headers.deep_view()),
        match r.target {
            None => true,
            Some(i) => i < headers.len(),
        },
{
    proof {
        reveal_strlit("COUNT(*)");
        reveal_strlit("SUM(");
        reveal_strlit("AVG(");
        reveal_strlit("MIN(");
        reveal_strlit("MAX(");
        reveal_strlit("COUNT(");
    }
    let s = column.as_str();
    if str_eq(s, "COUNT(*)") {
        let target: Option<usize> = if headers.len() > 0 {
            Some(0)
        } else {
            None
        };
        return ResolvedColumn { kind: Some(AggKind::Count), target };
    }
    let kind: Option<AggKind> = if str_has_prefix(s, "SUM(") {
        Some(AggKind::Sum)
    } else if str_has_prefix(s, "AVG(") {
        Some(AggKind::Avg)
    } else if str_has_prefix(s, "MIN(") {
        Some(AggKind::Min)
    } else if str_has_prefix(s, "MAX(") {
        Some(AggKind::Max)
    } else if str_has_prefix(s, "COUNT(") {
        Some(AggKind::Count)
    } else {
        None
    };
    if kind.is_none() {
        return ResolvedColumn { kind: None, target: None };
    }
    let plen: usize = if str_has_prefix(s, "COUNT(") {
        6
    } else {
        4
    };
    proof {
        if has_prefix(s@, "COUNT("@) {
            assert(s@.take(6)[0] == s@[0]);
            assert(s@[0] == 'C');
            if has_prefix(s@, "SUM("@) {
                assert(s@.take(4)[0] == s@[0]);
                assert(false);
            }
            if has_prefix(s@, "AVG("@) {
                assert(s@.take(4)[0] == s@[0]);
                assert(false);
            }
            if has_prefix(s@, "MIN("@) {
                assert(s@.take(4)[0] == s@[0]);
                assert(false);
            }
            if has_prefix(s@, "MAX("@) {
                assert(s@.take(4)[0] == s@[0]);
                assert(false);
            }
        }
        assert(plen == agg_prefix_len(s@));
    }
    let n = s.unicode_len();
    let mut j = plen;
    while j < n && !paren_at(s, j)
        invariant
            plen <= j <= n,
            n == s@.len(),
            forall|k: int| plen <= k < j ==> !is_paren(s@[k]),
        decreases n - j,
    {
        j = j + 1;
    }
    let target_text = s.substring_char(plen, j);
    proof {
        let rest = s@.skip(plen as int);
        let pp = |ch: char| is_paren(ch);
        assert forall|k: int| 0 <= k < (j - plen) implies !pp(rest[k]) by {
            assert(rest[k] == s@[k + plen]);
        }
        if j < n {
            assert(rest[j - plen] == s@[j as int]);
            lemma_find_pred_at(rest, pp, j - plen);
            assert(rest.take(j - plen) =~= target_text@);
        } else {
            lemma_find_pred_none(rest, pp);
            assert(rest =~= target_text@);
        }
        assert(plen == agg_prefix_len(s@));
        assert(target_text@ == agg_target_of(s@));
    }
    let target = find_header(headers, target_text);
    ResolvedColumn { kind, target }
}

} // verus!

//! The row predicate: OR of AND of three-token comparisons.
//!
//! A condition is tokenized on ASCII whitespace, except that a token opening
//! with a single quote runs to the closing quote, so quoted values may hold
//! spaces and the words `AND` and `OR`. The token list is split on `OR` into
//! clauses and each clause on `AND` into atoms; the condition holds iff some
//! clause holds, and a clause holds iff all its atoms hold, which gives AND
//! precedence over OR.
//!
//! An atom is exactly three tokens: column, operator, value. The column must
//! match a header exactly (the first match counts); otherwise the atom is
//! false, as is any malformed atom. A single-quoted value selects string
//! mode, where only `=` (or `==`) and `!=` are supported and compare the raw
//! field text. Otherwise field and value are read as fixed-point decimals
//! and compared under the IEEE NaN rules of [`crate::numeric`].

use vstd::prelude::*;

use crate::command::ParsedCommand;
use crate::numeric::{cmp_eval, num_cmp, num_of, parse_num, CmpOp};
use crate::seqtools::{
    find_elem, find_pred, lemma_find_elem_at, lemma_find_elem_none, lemma_find_pred_at,
    lemma_find_pred_none, lemma_split_elem_len, lemma_split_elem_step, split_elem,
};
use crate::text::{is_space_char, space_char, str_eq};
use vstd::string::StrSliceExecFns;

verus! {

/// The token that separates clauses.
pub open spec fn or_word() -> Seq<char> {
    seq!['O', 'R']
}

/// The token that separates atoms within a clause.
pub open spec fn and_word() -> Seq<char> {
    seq!['A', 'N', 'D']
}

/// The length of the token starting a non-space, nonempty suffix: a quoted
/// token runs to the closing quote, any other to the next whitespace.
pub open spec fn token_len(s: Seq<char>) -> int {
    if s[0] == '\'' {
        match find_elem(s.drop_first(), '\'') {
            None => s.len() as int,
            Some(j) => j + 2,
        }
    } else {
        match find_pred(s, |c: char| is_space_char(c)) {
            None => s.len() as int,
            Some(j) => j,
        }
    }
}

/// The tokens of a condition, in order.
pub open spec fn cond_tokens(s: Seq<char>) -> Seq<Seq<char>>
    decreases s.len(),
{
    if s.len() == 0 {
        Seq::empty()
    } else if is_space_char(s[0]) {
        cond_tokens(s.drop_first())
    } else {
        let n = token_len(s);
        let n1 = if n < 1 {
            1int
        } else if n > s.len() {
            s.len() as int
        } else {
            n
        };
        seq![s.take(n1)] + cond_tokens(s.skip(n1))
    }
}

/// The comparison operator a token denotes, if any; `=` and `==` both
/// denote equality.
pub open spec fn op_of(t: Seq<char>) -> Option<CmpOp> {
    if t == seq!['<'] {
        Some(CmpOp::Lt)
    } else if t == seq!['<', '='] {
        Some(CmpOp::Le)
    } else if t == seq!['>'] {
        Some(CmpOp::Gt)
    } else if t == seq!['>', '='] {
        Some(CmpOp::Ge)
    } else if t == seq!['='] || t == seq!['=', '='] {
        Some(CmpOp::Eq)
    } else if t == seq!['!', '='] {
        Some(CmpOp::Ne)
    } else {
        None
    }
}

/// Whether a value token is single-quoted.
pub open spec fn is_quoted(t: Seq<char>) -> bool {
    t.len() >= 2 && t[0] == '\'' && t.last() == '\''
}

/// The text inside a quoted token.
pub open spec fn unquote(t: Seq<char>) -> Seq<char> {
    t.subrange(1, t.len() - 1)
}

/// The field at position `i`, or empty text when the row is short.
pub open spec fn field_or_empty(fields: Seq<Seq<char>>, i: int) -> Seq<char> {
    if 0 <= i < fields.len() {
        fields[i]
    } else {
        Seq::empty()
    }
}

/// One atomic comparison: exactly three tokens — column, operator, value.
/// An unknown column, an unknown operator, a wrong token count, or a
/// relational operator on a quoted value all make the atom false.
pub open spec fn atom_eval(
    toks: Seq<Seq<char>>,
    headers: Seq<Seq<char>>,
    fields: Seq<Seq<char>>,
) -> bool {
    if toks.len() != 3 {
        false
    } else {
        match op_of(toks[1]) {
            None => false,
            Some(op) => match find_elem(headers, toks[0]) {
                None => false,
                Some(i) => {
                    let fv = field_or_empty(fields, i);
                    if is_quoted(toks[2]) {
                        match op {
                            CmpOp::Eq => fv == unquote(toks[2]),
                            CmpOp::Ne => fv != unquote(toks[2]),
                            _ => false,
                        }
                    } else {
                        cmp_eval(op, num_of(fv), num_of(toks[2]))
                    }
                },
            },
        }
    }
}

/// A clause holds iff all its `AND`-separated atoms hold.
pub open spec fn clause_eval(
    clause: Seq<Seq<char>>,
    headers: Seq<Seq<char>>,
    fields: Seq<Seq<char>>,
) -> bool {
    forall|k: int|
        0 <= k < split_elem(clause, and_word()).len() ==> atom_eval(
            #[trigger] split_elem(clause, and_word())[k],
            headers,
            fields,
        )
}

/// A condition holds iff some `OR`-separated clause holds.
pub open spec fn cond_eval(cond: Seq<char>, headers: Seq<Seq<char>>, fields: Seq<Seq<char>>) -> bool {
    exists|k: int|
        0 <= k < split_elem(cond_tokens(cond), or_word()).len() && clause_eval(
            #[trigger] split_elem(cond_tokens(cond), or_word())[k],
            headers,
            fields,
        )
}

/// A missing condition holds of every row.
pub open spec fn cond_opt_eval(
    cond: Option<Seq<char>>,
    headers: Seq<Seq<char>>,
    fields: Seq<Seq<char>>,
) -> bool {
    match cond {
        None => true,
        Some(c) => cond_eval(c, headers, fields),
    }
}

/// The tokens of `s`, as owned strings.
pub fn tokenize(s: &str) -> (r: Vec<String>)
    ensures
        r.deep_view() == cond_tokens(s@),
{
    let n = s.unicode_len();
    let mut out: Vec<String> = Vec::new();
    let mut i: usize = 0;
    proof {
        assert(s@.skip(0) =~= s@);
        assert(out.deep_view() + cond_tokens(s@) =~~= cond_tokens(s@));
    }
    while i < n
        invariant
            i <= n,
            n == s@.len(),
            cond_tokens(s@) == out.deep_view() + cond_tokens(s@.skip(i as int)),
        decreases n - i,
    {
        let c = s.get_char(i);
        if space_char(c) {
            proof {
                assert(s@.skip(i as int).drop_first() =~= s@.skip(i + 1));
            }
            i = i + 1;
        } else {
            let ghost sfx = s@.skip(i as int);
            let mut j: usize = i + 1;
            if c == '\'' {
                while j < n && s.get_char(j) != '\''
                    invariant
                        i < j <= n,
                        n == s@.len(),
                        forall|k: int| i < k < j ==> s@[k] != '\'',
                    decreases n - j,
                {
                    j = j + 1;
                }
                if j < n {
                    j = j + 1;
                    proof {
                        let d = sfx.drop_first();
                        assert forall|k: int| 0 <= k < (j - 1 - i - 1) implies d[k] != '\'' by {
                            assert(d[k] == s@[k + i + 1]);
                        }
                        assert(d[j - 1 - i - 1] == s@[j - 1]);
                        lemma_find_elem_at(d, '\'', j - 1 - i - 1);
                        assert(token_len(sfx) == j - i);
                    }
                } else {
                    proof {
                        let d = sfx.drop_first();
                        assert forall|k: int| 0 <= k < d.len() implies d[k] != '\'' by {
                            assert(d[k] == s@[k + i + 1]);
                        }
                        lemma_find_elem_none(d, '\'');
                        assert(token_len(sfx) == sfx.len());
                    }
                }
            } else {
                while j < n && !space_char(s.get_char(j))
                    invariant
                        i < j <= n,
                        n == s@.len(),
                        forall|k: int| i <= k < j ==> !is_space_char(s@[k]),
                    decreases n - j,
                {
                    j = j + 1;
                }
                proof {
                    let sp = |ch: char| is_space_char(ch);
                    assert forall|k: int| 0 <= k < (j - i) implies !sp(sfx[k]) by {
                        assert(sfx[k] == s@[k + i]);
                    }
                    if j < n {
                        assert(sfx[j - i] == s@[j as int]);
                        lemma_find_pred_at(sfx, sp, j - i);
                    } else {
                        lemma_find_pred_none(sfx, sp);
                    }
                    assert(token_len(sfx) == j - i);
                }
            }
            let piece = s.substring_char(i, j).to_owned();
            proof {
                assert(sfx.take(j - i) =~= piece@);
                assert(sfx.skip(j - i) =~= s@.skip(j as int));
                assert(cond_tokens(sfx) == seq![piece@] + cond_tokens(s@.skip(j as int)));
                assert(out.deep_view().push(piece@) =~~= (out.deep_view() + seq![piece@]));
            }
            out.push(piece);
            i = j;
        }
    }
    proof {
        assert(s@.skip(n as int) =~= Seq::<char>::empty());
        assert(out.deep_view() =~~= cond_tokens(s@));
    }
    out
}

/// The operator a token names, if any.
pub fn parse_op(t: &str) -> (r: Option<CmpOp>)
    ensures
        r == op_of(t@),
{
    let n = t.unicode_len();
    if n == 1 {
        let c = t.get_char(0);
        let r: Option<CmpOp> = if c == '<' {
            Some(CmpOp::Lt)
        } else if c == '>' {
            Some(CmpOp::Gt)
        } else if c == '=' {
            Some(CmpOp::Eq)
        } else {
            None
        };
        proof {
            if c == '<' {
                assert(t@ =~= seq!['<']);
            } else if c == '>' {
                assert(t@ =~= seq!['>']);
            } else if c == '=' {
                assert(t@ =~= seq!['=']);
            }
        }
        r
    } else if n == 2 {
        let c0 = t.get_char(0);
        let c1 = t.get_char(1);
        let r: Option<CmpOp> = if c0 == '<' && c1 == '=' {
            Some(CmpOp::Le)
        } else if c0 == '>' && c1 == '=' {
            Some(CmpOp::Ge)
        } else if c0 == '=' && c1 == '=' {
            Some(CmpOp::Eq)
        } else if c0 == '!' && c1 == '=' {
            Some(CmpOp::Ne)
        } else {
            None
        };
        proof {
            if c0 == '<' && c1 == '=' {
                assert(t@ =~= seq!['<', '=']);
            } else if c0 == '>' && c1 == '=' {
                assert(t@ =~= seq!['>', '=']);
            } else if c0 == '=' && c1 == '=' {
                assert(t@ =~= seq!['=', '=']);
            } else if c0 == '!' && c1 == '=' {
                assert(t@ =~= seq!['!', '=']);
            }
        }
        r
    } else {
        None
    }
}

/// Finds the first entry of `headers` equal to `name`.
pub(crate) fn find_name(headers: &[String], name: &str) -> (r: Option<usize>)
    ensures
        match r {
            None => find_elem(headers.deep_view(), name@) is None,
            Some(i) => find_elem(headers.deep_view(), name@) == Some(i as int) && i
                < headers@.len(),
        },
{
    let n = headers.len();
    let mut i: usize = 0;
    while i < n
        invariant
            i <= n,
            n == headers@.len(),
            forall|j: int| 0 <= j < i ==> headers.deep_view()[j] != name@,
        decreases n - i,
    {
        let h: &String = &headers[i];
        if str_eq(h.as_str(), name) {
            proof {
                lemma_find_elem_at(headers.deep_view(), name@, i as int);
            }
            return Some(i);
        }
        i = i + 1;
    }
    proof {
        lemma_find_elem_none(headers.deep_view(), name@);
    }
    None
}

/// Evaluates one atomic comparison given as tokens.
fn eval_atom(toks: &Vec<String>, headers: &[String], record: &[&str]) -> (r: bool)
    ensures
        r == atom_eval(toks.deep_view(), headers.deep_view(), record.deep_view()),
{
    if toks.len() != 3 {
        return false;
    }
    let op = match parse_op(toks[1].as_str()) {
        None => {
            return false;
        },
        Some(op) => op,
    };
    let idx = match find_name(headers, toks[0].as_str()) {
        None => {
            return false;
        },
        Some(i) => i,
    };
    let fv: &str = if idx < record.len() {
        record[idx]
    } else {
        ""
    };
    proof {
        reveal_strlit("");
        assert(fv@ == field_or_empty(record.deep_view(), idx as int));
    }
    let val: &String = &toks[2];
    let vn = val.as_str().unicode_len();
    let quoted = vn >= 2 && val.as_str().get_char(0) == '\'' && val.as_str().get_char(vn - 1)
        == '\'';
    if quoted {
        let inner = val.as_str().substring_char(1, vn - 1);
        proof {
            assert(inner@ =~= unquote(val@));
        }
        match op {
            CmpOp::Eq => str_eq(fv, inner),
            CmpOp::Ne => !str_eq(fv, inner),
            _ => false,
        }
    } else {
        let a = parse_num(fv);
        let b = parse_num(val.as_str());
        num_cmp(op, &a, &b)
    }
}

/// Splits a token list on the exact word `w`.
fn split_on_word(toks: &Vec<String>, w: &str) -> (r: Vec<Vec<String>>)
    ensures
        r.deep_view() == split_elem(toks.deep_view(), w@),
{
    let n = toks.len();
    let mut out: Vec<Vec<String>> = Vec::new();
    let mut cur: Vec<String> = Vec::new();
    let mut i: usize = 0;
    proof {
        assert(toks.deep_view().skip(0) =~= toks.deep_view());
        assert(glue(cur.deep_view(), split_elem(toks.deep_view(), w@)) =~~= split_elem(
            toks.deep_view(),
            w@,
        ));
        assert(out.deep_view() + split_elem(toks.deep_view(), w@) =~~= split_elem(
            toks.deep_view(),
            w@,
        ));
    }
    while i < n
        invariant
            i <= n,
            n == toks@.len(),
            split_elem(toks.deep_view(), w@) == out.deep_view() + glue(
                cur.deep_view(),
                split_elem(toks.deep_view().skip(i as int), w@),
            ),
        decreases n - i,
    {
        let ghost td = toks.deep_view();
        let ghost sfx = td.skip(i as int);
        let ghost rest = split_elem(td.skip(i + 1), w@);
        proof {
            assert(sfx.drop_first() =~= td.skip(i + 1));
            lemma_split_elem_len(td.skip(i + 1), w@);
            assert(sfx[0] == td[i as int]);
        }
        if str_eq(toks[i].as_str(), w) {
            let ghost out_pre = out.deep_view();
            let ghost cur_pre = cur.deep_view();
            out.push(cur);
            cur = Vec::new();
            proof {
                assert(split_elem(sfx, w@) =~~= seq![Seq::<Seq<char>>::empty()] + rest);
                assert(out.deep_view() =~~= out_pre.push(cur_pre));
                assert(cur.deep_view() =~= Seq::<Seq<char>>::empty());
                assert(glue(cur_pre, seq![Seq::<Seq<char>>::empty()] + rest) =~~= (seq![cur_pre]
                    + rest));
                assert(glue(Seq::<Seq<char>>::empty(), rest) =~~= rest);
                assert((out_pre + (seq![cur_pre] + rest)) =~~= (out_pre.push(cur_pre) + rest));
                assert(split_elem(td, w@) == out.deep_view() + glue(
                    cur.deep_view(),
                    split_elem(td.skip(i + 1), w@),
                ));
            }
        } else {
            let t = toks[i].clone();
            let ghost cur_pre = cur.deep_view();
            cur.push(t);
            proof {
                assert(cur.deep_view() =~~= cur_pre.push(sfx[0]));
                assert(split_elem(sfx, w@) =~~= glue(seq![sfx[0]], rest));
                assert(glue(cur_pre, glue(seq![sfx[0]], rest)) =~~= glue(
                    cur_pre.push(sfx[0]),
                    rest,
                ));
                assert(split_elem(td, w@) == out.deep_view() + glue(
                    cur.deep_view(),
                    split_elem(td.skip(i + 1), w@),
                ));
            }
        }
        i = i + 1;
    }
    proof {
        assert(toks.deep_view().skip(n as int) =~= Seq::<Seq<char>>::empty());
        assert(glue(cur.deep_view(), split_elem(Seq::<Seq<char>>::empty(), w@)) =~~= seq![
            cur.deep_view(),
        ]);
        assert(out.deep_view().push(cur.deep_view()) =~~= (out.deep_view() + seq![
            cur.deep_view(),
        ]));
    }
    out.push(cur);
    proof {
        assert(out.deep_view() =~~= split_elem(toks.deep_view(), w@));
    }
    out
}

/// One group of a split with the pending prefix glued onto its first piece.
pub open spec fn glue<A>(pre: Seq<A>, ss: Seq<Seq<A>>) -> Seq<Seq<A>> {
    seq![pre + ss[0]] + ss.skip(1)
}

/// Evaluates a full condition string against headers and a row.
pub fn eval_condition_text(cond: &str, headers: &[String], record: &[&str]) -> (r: bool)
    ensures
        r == cond_eval(cond@, headers.deep_view(), record.deep_view()),
{
    let toks = tokenize(cond);
    let clauses = split_on_word(&toks, "OR");
    proof {
        reveal_strlit("OR");
        assert("OR"@ =~= or_word());
    }
    let mut ci: usize = 0;
    while ci < clauses.len()
        invariant
            ci <= clauses@.len(),
            clauses.deep_view() == split_elem(cond_tokens(cond@), or_word()),
            forall|k: int|
                0 <= k < ci ==> !clause_eval(
                    #[trigger] clauses.deep_view()[k],
                    headers.deep_view(),
                    record.deep_view(),
                ),
        decreases clauses@.len() - ci,
    {
        let clause: &Vec<String> = &clauses[ci];
        let groups = split_on_word(clause, "AND");
        proof {
            reveal_strlit("AND");
            assert("AND"@ =~= and_word());
            assert(clause.deep_view() == clauses.deep_view()[ci as int]);
        }
        let mut gi: usize = 0;
        let mut all = true;
        while gi < groups.len()
            invariant
                gi <= groups@.len(),
                groups.deep_view() == split_elem(
                    clauses.deep_view()[ci as int],
                    and_word(),
                ),
                ci < clauses@.len(),
                all == forall|k: int|
                    0 <= k < gi ==> atom_eval(
                        #[trigger] groups.deep_view()[k],
                        headers.deep_view(),
                        record.deep_view(),
                    ),
            decreases groups@.len() - gi,
        {
            let g: &Vec<String> = &groups[gi];
            proof {
                assert(g.deep_view() == groups.deep_view()[gi as int]);
            }
            let ok = eval_atom(g, headers, record);
            all = all && ok;
            gi = gi + 1;
        }
        if all {
            proof {
                assert(clause_eval(
                    clauses.deep_view()[ci as int],
                    headers.deep_view(),
                    record.deep_view(),
                ));
            }
            return true;
        }
        ci = ci + 1;
    }
    proof {
        if cond_eval(cond@, headers.deep_view(), record.deep_view()) {
            let k = choose|k: int|
                0 <= k < split_elem(cond_tokens(cond@), or_word()).len() && clause_eval(
                    #[trigger] split_elem(cond_tokens(cond@), or_word())[k],
                    headers.deep_view(),
                    record.deep_view(),
                );
            assert(!clause_eval(
                clauses.deep_view()[k],
                headers.deep_view(),
                record.deep_view(),
            ));
        }
    }
    false
}

/// Evaluates a command's compound condition against one row; a command
/// without a condition accepts every row.
pub fn check_condition(command: &ParsedCommand, headers: &[String], record: &[&str]) -> (r: bool)
    ensures
        r == cond_opt_eval(command.condition_view(), headers.deep_view(), record.deep_view()),
{
    match &command.condition {
        None => true,
        Some(cond) => eval_condition_text(cond.as_str(), headers, record),
    }
}

/// Evaluates a single three-token comparison given as text; text that is
/// not exactly one atom evaluates false.
pub fn evaluate_condition(condition: &str, headers: &[String], record: &[&str]) -> (r: bool)
    ensures
        r == atom_eval(cond_tokens(condition@), headers.deep_view(), record.deep_view()),
{
    let toks = tokenize(condition);
    eval_atom(&toks, headers, record)
}

/// Whether a character could belong to a number or an operator.
pub open spec fn is_opish_char(c: char) -> bool {
    crate::numeric::is_digit_char(c) || c == '.' || c == '<' || c == '>' || c == '=' || c == '!'
}

/// Whether a condition word could name a column: it is neither connective
/// and holds at least one character that is not numeric or operator-like.
pub open spec fn names_column(t: Seq<char>) -> bool {
    t != or_word() && t != and_word() && !(forall|i: int|
        0 <= i < t.len() ==> is_opish_char(#[trigger] t[i]))
}

/// Whether some whitespace-separated word of the condition is exactly `h`
/// and could name a column.
pub open spec fn header_mentioned(h: Seq<char>, toks: Seq<Seq<char>>) -> bool {
    exists|k: int| 0 <= k < toks.len() && #[trigger] toks[k] == h && names_column(toks[k])
}

/// Whether `t` could name a column.
fn word_names_column(t: &str) -> (r: bool)
    ensures
        r == names_column(t@),
{
    proof {
        reveal_strlit("OR");
        reveal_strlit("AND");
        assert("OR"@ =~= or_word());
        assert("AND"@ =~= and_word());
    }
    if str_eq(t, "OR") || str_eq(t, "AND") {
        return false;
    }
    let n = t.unicode_len();
    let mut i: usize = 0;
    while i < n
        invariant
            i <= n,
            n == t@.len(),
            t@ != or_word(),
            t@ != and_word(),
            forall|j: int| 0 <= j < i ==> is_opish_char(#[trigger] t@[j]),
        decreases n - i,
    {
        let c = t.get_char(i);
        let u = c as u32;
        if !((48 <= u && u <= 57) || c == '.' || c == '<' || c == '>' || c == '=' || c == '!') {
            proof {
                assert(!(forall|j: int| 0 <= j < t@.len() ==> is_opish_char(#[trigger] t@[j])))
                    by {
                    assert(0 <= i < t@.len() && !is_opish_char(t@[i as int]));
                }
                reveal_strlit("OR");
                reveal_strlit("AND");
                assert("OR"@ =~= or_word());
                assert("AND"@ =~= and_word());
                assert(names_column(t@));
            }
            return true;
        }
        i = i + 1;
    }
    false
}

/// The headers that the condition's words name, in header order: a header
/// is kept when some whitespace-separated word of the condition is
/// exactly its name and is neither a connective nor operator-or-number
/// text.
pub fn extract_required_headers(headers: &[String], condition: &str) -> (r: Vec<String>)
    ensures
        r.deep_view() == headers.deep_view().filter(
            |h: Seq<char>| header_mentioned(h, crate::text::ws_tokens(condition@)),
        ),
{
    let ghost toks = crate::text::ws_tokens(condition@);
    let ghost pred = |h: Seq<char>| header_mentioned(h, toks);
    let words = crate::text::split_whitespace_words(condition);
    let n = headers.len();
    let mut out: Vec<String> = Vec::new();
    let mut i: usize = 0;
    proof {
        reveal_with_fuel(Seq::<Seq<char>>::filter, 2);
        assert(headers.deep_view().take(0) =~= Seq::<Seq<char>>::empty());
        assert(out.deep_view() =~~= headers.deep_view().take(0).filter(pred));
    }
    while i < n
        invariant
            i <= n,
            n == headers@.len(),
            toks == crate::text::ws_tokens(condition@),
            words.deep_view() == toks,
            pred == (|h: Seq<char>| header_mentioned(h, toks)),
            out.deep_view() == headers.deep_view().take(i as int).filter(pred),
        decreases n - i,
    {
        let h: &String = &headers[i];
        let ghost hv = headers.deep_view()[i as int];
        proof {
            assert(hv == h@);
        }
        let m = words.len();
        let mut found = false;
        let mut k: usize = 0;
        while k < m
            invariant
                k <= m,
                m == words@.len(),
                words.deep_view() == toks,
                found == exists|x: int|
                    0 <= x < k && #[trigger] toks[x] == h@ && names_column(toks[x]),
            decreases m - k,
        {
            let w: &String = &words[k];
            let this = str_eq(w.as_str(), h.as_str()) && word_names_column(w.as_str());
            if this {
                found = true;
            }
            proof {
                if found {
                    if this {
                        assert(toks[k as int] == h@ && names_column(toks[k as int]));
                        assert(exists|x: int|
                            0 <= x < k + 1 && #[trigger] toks[x] == h@ && names_column(toks[x]));
                    } else {
                        let wx = choose|x: int|
                            0 <= x < k && #[trigger] toks[x] == h@ && names_column(toks[x]);
                        assert(0 <= wx < k + 1 && toks[wx] == h@ && names_column(toks[wx]));
                    }
                } else {
                    assert forall|x: int|
                        0 <= x < k + 1 implies !(#[trigger] toks[x] == h@ && names_column(
                        toks[x],
                    )) by {}
                }
            }
            k = k + 1;
        }
        proof {
            assert(found == header_mentioned(h@, toks));
        }
        let ghost pre = out.deep_view();
        if found {
            out.push(h.clone());
        }
        proof {
            reveal_with_fuel(Seq::<Seq<char>>::filter, 2);
            let dv = headers.deep_view();
            assert(dv.take(i + 1) =~= dv.take(i as int) + seq![hv]);
            Seq::<Seq<char>>::filter_distributes_over_add(dv.take(i as int), seq![hv], pred);
            assert(seq![hv].drop_last() =~= Seq::<Seq<char>>::empty());
            if found {
                assert(seq![hv].filter(pred) =~~= seq![hv]);
                assert(out.deep_view() =~~= pre.push(hv));
                assert(pre.push(hv) =~~= pre + seq![hv]);
            } else {
                assert(seq![hv].filter(pred) =~~= Seq::<Seq<char>>::empty());
                assert(out.deep_view() + Seq::<Seq<char>>::empty() =~~= out.deep_view());
            }
            assert(out.deep_view() =~~= dv.take(i + 1).filter(pred));
        }
        i = i + 1;
    }
    proof {
        assert(headers.deep_view().take(n as int) =~= headers.deep_view());
    }
    out
}

/// The precedence law: a condition whose tokens read `A OR B AND C`, for
/// atoms `A`, `B`, `C` free of the connective words, holds iff `A` holds
/// or both `B` and `C` hold — `AND` binds tighter than `OR`.
pub proof fn lemma_or_and_precedence(
    cond: Seq<char>,
    a: Seq<Seq<char>>,
    b: Seq<Seq<char>>,
    c: Seq<Seq<char>>,
    headers: Seq<Seq<char>>,
    fields: Seq<Seq<char>>,
)
    requires
        cond_tokens(cond) == a + seq![or_word()] + b + seq![and_word()] + c,
        forall|j: int| 0 <= j < a.len() ==> #[trigger] a[j] != or_word() && a[j] != and_word(),
        forall|j: int| 0 <= j < b.len() ==> #[trigger] b[j] != or_word() && b[j] != and_word(),
        forall|j: int| 0 <= j < c.len() ==> #[trigger] c[j] != or_word() && c[j] != and_word(),
    ensures
        cond_eval(cond, headers, fields) == (atom_eval(a, headers, fields) || (atom_eval(
            b,
            headers,
            fields,
        ) && atom_eval(c, headers, fields))),
{
    let ts = cond_tokens(cond);
    let rest = b + seq![and_word()] + c;
    assert(or_word() != and_word());
    // `OR` first occurs right after `A`, so the clauses are `A` and
    // `B AND C`.
    assert(ts[a.len() as int] == or_word());
    assert forall|j: int| 0 <= j < a.len() implies ts[j] != or_word() by {
        assert(ts[j] == a[j]);
    }
    lemma_find_elem_at(ts, or_word(), a.len() as int);
    lemma_split_elem_step(ts, or_word());
    assert(ts.take(a.len() as int) =~= a);
    assert(ts.skip(a.len() as int + 1) =~~= rest);
    assert forall|j: int| 0 <= j < rest.len() implies rest[j] != or_word() by {
        if j < b.len() {
            assert(rest[j] == b[j]);
        } else if j == b.len() {
            assert(rest[j] == and_word());
        } else {
            assert(rest[j] == c[j - b.len() - 1]);
        }
    }
    lemma_find_elem_none(rest, or_word());
    lemma_split_elem_step(rest, or_word());
    let clauses = split_elem(ts, or_word());
    assert(clauses =~~= seq![a, rest]);
    // Within `A` there is no `AND`, so it is one atom.
    assert forall|j: int| 0 <= j < a.len() implies a[j] != and_word() by {}
    lemma_find_elem_none(a, and_word());
    lemma_split_elem_step(a, and_word());
    assert(split_elem(a, and_word()) =~~= seq![a]);
    assert(clause_eval(a, headers, fields) == atom_eval(a, headers, fields)) by {
        assert(split_elem(a, and_word())[0] == a);
        if atom_eval(a, headers, fields) {
            assert forall|k: int|
                0 <= k < split_elem(a, and_word()).len() implies atom_eval(
                split_elem(a, and_word())[k],
                headers,
                fields,
            ) by {}
        }
    }
    // Within `B AND C` the single `AND` splits the two atoms.
    assert(rest[b.len() as int] == and_word());
    assert forall|j: int| 0 <= j < b.len() implies rest[j] != and_word() by {
        assert(rest[j] == b[j]);
    }
    lemma_find_elem_at(rest, and_word(), b.len() as int);
    lemma_split_elem_step(rest, and_word());
    assert(rest.take(b.len() as int) =~= b);
    assert(rest.skip(b.len() as int + 1) =~= c);
    lemma_find_elem_none(c, and_word());
    lemma_split_elem_step(c, and_word());
    assert(split_elem(rest, and_word()) =~~= seq![b, c]);
    assert(clause_eval(rest, headers, fields) == (atom_eval(b, headers, fields) && atom_eval(
        c,
        headers,
        fields,
    ))) by {
        assert(split_elem(rest, and_word())[0] == b);
        assert(split_elem(rest, and_word())[1] == c);
        if atom_eval(b, headers, fields) && atom_eval(c, headers, fields) {
            assert forall|k: int|
                0 <= k < split_elem(rest, and_word()).len() implies atom_eval(
                split_elem(rest, and_word())[k],
                headers,
                fields,
            ) by {
                if k == 0 {
                } else {
                    assert(k == 1);
                }
            }
        }
    }
    // The two clauses decide the condition.
    assert(cond_eval(cond, headers, fields) == (clause_eval(a, headers, fields) || clause_eval(
        rest,
        headers,
        fields,
    ))) by {
        assert(clauses[0] == a);
        assert(clauses[1] == rest);
        if clause_eval(a, headers, fields) {
            assert(cond_eval(cond, headers, fields));
        }
        if clause_eval(rest, headers, fields) {
            assert(cond_eval(cond, headers, fields));
        }
        if cond_eval(cond, headers, fields) {
            let k = choose|k: int|
                0 <= k < clauses.len() && clause_eval(#[trigger] clauses[k], headers, fields);
            assert(k == 0 || k == 1);
        }
    }
}

/// A field that fails numeric parse behaves like NaN in an atom: with a
/// known column and operator and an unquoted value, `!=` holds and every
/// other comparison fails, whatever the value reads.
pub proof fn lemma_unparsable_field(
    toks: Seq<Seq<char>>,
    headers: Seq<Seq<char>>,
    fields: Seq<Seq<char>>,
    i: int,
)
    requires
        toks.len() == 3,
        op_of(toks[1]) is Some,
        find_elem(headers, toks[0]) == Some(i),
        !is_quoted(toks[2]),
        num_of(field_or_empty(fields, i)) is None,
    ensures
        atom_eval(toks, headers, fields) == (op_of(toks[1]) == Some(CmpOp::Ne)),
{
    crate::numeric::lemma_nan_comparison(
        match op_of(toks[1]) {
            Some(op) => op,
            None => CmpOp::Ne,
        },
        num_of(field_or_empty(fields, i)),
        num_of(toks[2]),
    );
}

} // verus!

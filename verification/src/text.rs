//! Text utilities: UTF-8 decoding, whitespace, splitting, decimal digits.
//!
//! The crate works on bytes up to the row boundary and on characters within
//! a row. The two trusted wrappers in this module are the only places where
//! bytes become text. Whitespace means the ASCII whitespace characters
//! (space, tab, line feed, vertical tab, form feed, carriage return).

use vstd::prelude::*;

use crate::seqtools::{
    find_elem, find_pred, lemma_find_elem, lemma_find_elem_at, lemma_find_elem_none,
    lemma_find_pred_at, lemma_find_pred_none, lemma_split_elem_len, lemma_split_elem_step,
    split_elem,
};
use vstd::string::StrSliceExecFns;
use vstd::string::StringExecFns;
use vstd::utf8::{decode_utf8, valid_utf8};

verus! {

/// ASCII whitespace, as a character.
pub open spec fn is_space_char(c: char) -> bool {
    c == ' ' || c == '\t' || c == '\n' || c == '\u{000B}' || c == '\u{000C}' || c == '\r'
}

/// ASCII whitespace, as a byte.
pub open spec fn is_space_byte(b: u8) -> bool {
    b == 32 || (9 <= b && b <= 13)
}

/// Whether `c` is ASCII whitespace.
#[verifier::when_used_as_spec(is_space_char)]
pub fn space_char(c: char) -> (r: bool)
    ensures
        r == is_space_char(c),
{
    c == ' ' || c == '\t' || c == '\n' || c == '\u{000B}' || c == '\u{000C}' || c == '\r'
}

/// `s` without its leading whitespace bytes.
pub open spec fn trim_front(s: Seq<u8>) -> Seq<u8>
    decreases s.len(),
{
    if s.len() > 0 && is_space_byte(s[0]) {
        trim_front(s.drop_first())
    } else {
        s
    }
}

/// `s` without its trailing whitespace bytes.
pub open spec fn trim_back(s: Seq<u8>) -> Seq<u8>
    decreases s.len(),
{
    if s.len() > 0 && is_space_byte(s.last()) {
        trim_back(s.drop_last())
    } else {
        s
    }
}

/// `s` without leading and trailing whitespace bytes.
pub open spec fn trim_bytes(s: Seq<u8>) -> Seq<u8> {
    trim_back(trim_front(s))
}

proof fn lemma_trim_front_at(s: Seq<u8>, k: int)
    requires
        0 <= k <= s.len(),
        forall|j: int| 0 <= j < k ==> is_space_byte(s[j]),
        k < s.len() ==> !is_space_byte(s[k]),
    ensures
        trim_front(s) == s.skip(k),
    decreases s.len(),
{
    if k == 0 {
        assert(s.skip(0) =~= s);
    } else {
        lemma_trim_front_at(s.drop_first(), k - 1);
        assert(s.drop_first().skip(k - 1) =~= s.skip(k));
    }
}

proof fn lemma_trim_back_at(s: Seq<u8>, k: int)
    requires
        0 <= k <= s.len(),
        forall|j: int| k <= j < s.len() ==> is_space_byte(s[j]),
        k > 0 ==> !is_space_byte(s[k - 1]),
    ensures
        trim_back(s) == s.take(k),
    decreases s.len(),
{
    if k == s.len() {
        assert(s.take(k) =~= s);
    } else {
        lemma_trim_back_at(s.drop_last(), k);
        assert(s.drop_last().take(k) =~= s.take(k));
    }
}

/// Whether the byte at index `i` of `b` is ASCII whitespace.
fn space_byte_at(b: &[u8], i: usize) -> (r: bool)
    requires
        i < b@.len(),
    ensures
        r == is_space_byte(b@[i as int]),
{
    let c = *vstd::slice::slice_index_get(b, i);
    c == 32 || (9 <= c && c <= 13)
}

/// The bytes of `b` with surrounding ASCII whitespace removed.
pub fn trim_ascii<'a>(b: &'a [u8]) -> (r: &'a [u8])
    ensures
        r@ == trim_bytes(b@),
{
    let len = b.len();
    let mut lo: usize = 0;
    while lo < len && space_byte_at(b, lo)
        invariant
            lo <= len,
            len == b@.len(),
            forall|j: int| 0 <= j < lo ==> is_space_byte(b@[j]),
        decreases len - lo,
    {
        lo = lo + 1;
    }
    proof {
        lemma_trim_front_at(b@, lo as int);
    }
    let mut hi: usize = len;
    while hi > lo && space_byte_at(b, hi - 1)
        invariant
            lo <= hi <= len,
            len == b@.len(),
            forall|j: int| 0 <= j < lo ==> is_space_byte(b@[j]),
            forall|j: int| hi <= j < len ==> is_space_byte(b@[j]),
        decreases hi,
    {
        hi = hi - 1;
    }
    proof {
        let f = b@.skip(lo as int);
        assert forall|j: int| (hi - lo) <= j < f.len() implies is_space_byte(f[j]) by {
            assert(f[j] == b@[j + lo]);
        }
        if hi > lo {
            assert(f[hi - lo - 1] == b@[hi - 1]);
        }
        lemma_trim_back_at(f, hi - lo);
        assert(f.take(hi - lo) =~= b@.subrange(lo as int, hi as int));
    }
    vstd::slice::slice_subrange(b, lo, hi)
}

/// What `String::from_utf8_lossy` returns: a function of the bytes alone.
pub uninterp spec fn lossy_decode_of(b: Seq<u8>) -> Seq<char>;

/// Relies on `String::from_utf8_lossy`: decodes valid UTF-8 exactly and
/// substitutes replacement characters for invalid sequences; the result
/// depends on the bytes alone.
#[verifier::external_body]
pub fn decode_lossy(b: &[u8]) -> (r: String)
    ensures
        r@ == lossy_decode_of(b@),
        valid_utf8(b@) ==> r@ == decode_utf8(b@),
{
    String::from_utf8_lossy(b).into_owned()
}

/// Relies on `core::str::from_utf8`: `Ok` exactly on valid UTF-8, decoding it.
#[verifier::external_body]
pub fn decode_strict<'a>(b: &'a [u8]) -> (r: Option<&'a str>)
    ensures
        match r {
            Some(s) => valid_utf8(b@) && s@ == decode_utf8(b@),
            None => !valid_utf8(b@),
        },
{
    core::str::from_utf8(b).ok()
}

/// The characters of `s`, one vector entry per character.
pub fn chars_of(s: &str) -> (r: Vec<char>)
    ensures
        r@ == s@,
{
    let n = s.unicode_len();
    let mut r: Vec<char> = Vec::new();
    let mut i: usize = 0;
    while i < n
        invariant
            i <= n,
            n == s@.len(),
            r@ == s@.take(i as int),
        decreases n - i,
    {
        r.push(s.get_char(i));
        proof {
            assert(s@.take(i + 1) =~= s@.take(i as int).push(s@[i as int]));
        }
        i = i + 1;
    }
    proof {
        assert(s@.take(n as int) =~= s@);
    }
    r
}

/// Whether two string slices hold the same characters.
pub fn str_eq(a: &str, b: &str) -> (r: bool)
    ensures
        r == (a@ == b@),
{
    let n = a.unicode_len();
    if n != b.unicode_len() {
        return false;
    }
    let mut i: usize = 0;
    while i < n
        invariant
            i <= n,
            n == a@.len(),
            n == b@.len(),
            forall|j: int| 0 <= j < i ==> a@[j] == b@[j],
        decreases n - i,
    {
        if a.get_char(i) != b.get_char(i) {
            return false;
        }
        i = i + 1;
    }
    proof {
        assert(a@ =~= b@);
    }
    true
}

/// The pieces of `s` between occurrences of `sep`, as owned strings.
pub fn split_str(s: &str, sep: char) -> (r: Vec<String>)
    ensures
        r.deep_view() == split_elem(s@, sep),
{
    let n = s.unicode_len();
    let mut out: Vec<String> = Vec::new();
    let mut start: usize = 0;
    let mut i: usize = 0;
    proof {
        assert(s@.skip(0) =~= s@);
        assert(out.deep_view() + split_elem(s@, sep) =~~= split_elem(s@, sep));
    }
    while i < n
        invariant
            start <= i <= n,
            n == s@.len(),
            forall|j: int| start <= j < i ==> s@[j] != sep,
            split_elem(s@, sep) == out.deep_view() + split_elem(s@.skip(start as int), sep),
        decreases n - i,
    {
        if s.get_char(i) == sep {
            let piece = s.substring_char(start, i).to_owned();
            proof {
                let sfx = s@.skip(start as int);
                assert forall|j: int| 0 <= j < (i - start) implies sfx[j] != sep by {
                    assert(sfx[j] == s@[j + start]);
                }
                assert(sfx[i - start] == s@[i as int]);
                lemma_find_elem_at(sfx, sep, i - start);
                lemma_split_elem_step(sfx, sep);
                assert(sfx.take(i - start) =~= piece@);
                assert(sfx.skip(i - start + 1) =~= s@.skip(i + 1));
                assert(out.deep_view().push(piece@) =~~= (out.deep_view() + seq![piece@]));
            }
            out.push(piece);
            start = i + 1;
        }
        i = i + 1;
    }
    let piece = s.substring_char(start, n).to_owned();
    proof {
        let sfx = s@.skip(start as int);
        assert forall|j: int| 0 <= j < sfx.len() implies sfx[j] != sep by {
            assert(sfx[j] == s@[j + start]);
        }
        lemma_find_elem_none(sfx, sep);
        lemma_split_elem_step(sfx, sep);
        assert(sfx =~= piece@);
        assert(out.deep_view().push(piece@) =~~= (out.deep_view() + seq![piece@]));
    }
    out.push(piece);
    proof {
        assert(out.deep_view() =~~= split_elem(s@, sep));
    }
    out
}

/// The whitespace-separated words of `s`, in order.
pub open spec fn ws_tokens(s: Seq<char>) -> Seq<Seq<char>>
    decreases s.len(),
{
    if s.len() == 0 {
        Seq::empty()
    } else if is_space_char(s[0]) {
        ws_tokens(s.drop_first())
    } else {
        let n = match find_pred(s, |c: char| is_space_char(c)) {
            None => s.len() as int,
            Some(j) => j,
        };
        let n1 = if n < 1 {
            1int
        } else if n > s.len() {
            s.len() as int
        } else {
            n
        };
        seq![s.take(n1)] + ws_tokens(s.skip(n1))
    }
}

/// The whitespace-separated words of `s`, as owned strings.
pub fn split_whitespace_words(s: &str) -> (r: Vec<String>)
    ensures
        r.deep_view() == ws_tokens(s@),
{
    let n = s.unicode_len();
    let mut out: Vec<String> = Vec::new();
    let mut i: usize = 0;
    proof {
        assert(s@.skip(0) =~= s@);
        assert(out.deep_view() + ws_tokens(s@) =~~= ws_tokens(s@));
    }
    while i < n
        invariant
            i <= n,
            n == s@.len(),
            ws_tokens(s@) == out.deep_view() + ws_tokens(s@.skip(i as int)),
        decreases n - i,
    {
        if space_char(s.get_char(i)) {
            proof {
                assert(s@.skip(i as int).drop_first() =~= s@.skip(i + 1));
            }
            i = i + 1;
        } else {
            let start = i;
            let mut j = i + 1;
            while j < n && !space_char(s.get_char(j))
                invariant
                    start < j <= n,
                    n == s@.len(),
                    forall|k: int| start <= k < j ==> !is_space_char(s@[k]),
                decreases n - j,
            {
                j = j + 1;
            }
            let piece = s.substring_char(start, j).to_owned();
            proof {
                let sfx = s@.skip(start as int);
                let sp = |c: char| is_space_char(c);
                assert forall|k: int| 0 <= k < (j - start) implies !sp(sfx[k]) by {
                    assert(sfx[k] == s@[k + start]);
                }
                if j < n {
                    assert(sfx[j - start] == s@[j as int]);
                    lemma_find_pred_at(sfx, sp, j - start);
                } else {
                    lemma_find_pred_none(sfx, sp);
                }
                assert(sfx.take(j - start) =~= piece@);
                assert(sfx.skip(j - start) =~= s@.skip(j as int));
                assert(ws_tokens(sfx) == seq![piece@] + ws_tokens(s@.skip(j as int)));
                assert(out.deep_view().push(piece@) =~~= (out.deep_view() + seq![piece@]));
            }
            out.push(piece);
            i = j;
        }
    }
    proof {
        assert(s@.skip(n as int) =~= Seq::<char>::empty());
        assert(out.deep_view() =~~= ws_tokens(s@));
    }
    out
}

/// The decimal digit character for `d`.
pub open spec fn digit_char(d: int) -> char {
    if d == 0 {
        '0'
    } else if d == 1 {
        '1'
    } else if d == 2 {
        '2'
    } else if d == 3 {
        '3'
    } else if d == 4 {
        '4'
    } else if d == 5 {
        '5'
    } else if d == 6 {
        '6'
    } else if d == 7 {
        '7'
    } else if d == 8 {
        '8'
    } else {
        '9'
    }
}

/// The decimal rendering of `n`, most significant digit first, no leading
/// zeros (except for zero itself).
pub open spec fn dec_str(n: nat) -> Seq<char>
    decreases n,
{
    if n < 10 {
        seq![digit_char(n as int)]
    } else {
        dec_str(n / 10).push(digit_char((n % 10) as int))
    }
}

pub(crate) fn digit_str(d: u8) -> (r: &'static str)
    requires
        d < 10,
    ensures
        r@ =~= seq![digit_char(d as int)],
{
    proof {
        reveal_strlit("0");
        reveal_strlit("1");
        reveal_strlit("2");
        reveal_strlit("3");
        reveal_strlit("4");
        reveal_strlit("5");
        reveal_strlit("6");
        reveal_strlit("7");
        reveal_strlit("8");
        reveal_strlit("9");
    }
    match d {
        0 => "0",
        1 => "1",
        2 => "2",
        3 => "3",
        4 => "4",
        5 => "5",
        6 => "6",
        7 => "7",
        8 => "8",
        _ => "9",
    }
}

/// Appends the decimal rendering of `n` to `out`.
pub fn push_decimal(out: &mut String, n: u128)
    ensures
        final(out)@ == old(out)@ + dec_str(n as nat),
    decreases n,
{
    if n < 10 {
        out.append(digit_str(n as u8));
    } else {
        push_decimal(out, n / 10);
        out.append(digit_str((n % 10) as u8));
    }
}

} // verus!

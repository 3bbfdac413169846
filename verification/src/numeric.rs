//! The numeric domain: exact fixed-point decimals with NaN.
//!
//! A value is either `NaN` or a signed count of billionths (nine fractional
//! decimal digits). Text parses as a number when it is an optional sign
//! followed by decimal digits with at most one point, at most eighteen
//! integer digits and at most nine fractional digits; everything else —
//! including empty text — is `NaN`. Comparisons follow the IEEE rules for
//! NaN: `!=` is true whenever either side is NaN, every other comparison is
//! false.

use vstd::prelude::*;

use crate::seqtools::{find_elem, lemma_find_elem, lemma_find_elem_at, lemma_find_elem_none};
use crate::text::{chars_of, dec_str, digit_char, push_decimal};
use vstd::string::StrSliceExecFns;
use vstd::string::StringExecFns;

verus! {

/// Billionths per unit: the fixed-point scale.
pub const SCALE: i128 = 1000000000;

/// Magnitude bound at which running totals saturate.
pub const SAT_LIMIT: i128 = 100000000000000000000000000000000000000;

/// Ten to the `n`.
pub open spec fn pow10(n: nat) -> int
    decreases n,
{
    if n == 0 {
        1
    } else {
        10 * pow10((n - 1) as nat)
    }
}

/// Whether `c` is a decimal digit.
pub open spec fn is_digit_char(c: char) -> bool {
    48 <= c as u32 && c as u32 <= 57
}

/// The value of the digit `c`.
pub open spec fn digit_val(c: char) -> int {
    c as u32 - 48
}

/// Whether every character of `s` is a decimal digit.
pub open spec fn all_digits(s: Seq<char>) -> bool {
    forall|i: int| 0 <= i < s.len() ==> is_digit_char(s[i])
}

/// The value of a digit string, most significant digit first.
pub open spec fn digits_val(s: Seq<char>) -> int
    decreases s.len(),
{
    if s.len() == 0 {
        0
    } else {
        digits_val(s.drop_last()) * 10 + digit_val(s.last())
    }
}

/// A digit string's value is bounded by ten to its length.
pub proof fn lemma_digits_val_bound(s: Seq<char>)
    requires
        all_digits(s),
    ensures
        0 <= digits_val(s) < pow10(s.len()),
    decreases s.len(),
{
    if s.len() > 0 {
        lemma_digits_val_bound(s.drop_last());
    }
}

/// The numeric value, in billionths, of the digits-and-point part of a
/// literal (no sign), or `None` when it is not in the numeric domain.
pub open spec fn num_body(body: Seq<char>) -> Option<int> {
    let d = match find_elem(body, '.') {
        None => body.len() as int,
        Some(i) => i,
    };
    let ip = body.take(d);
    let fp = if d == body.len() {
        Seq::<char>::empty()
    } else {
        body.skip(d + 1)
    };
    if all_digits(ip) && all_digits(fp) && ip.len() + fp.len() >= 1 && ip.len() <= 18 && fp.len()
        <= 9 {
        Some(digits_val(ip) * (SCALE as int) + digits_val(fp) * pow10((9 - fp.len()) as nat))
    } else {
        None
    }
}

/// The numeric value of `s` in billionths, or `None` when `s` does not
/// parse as a number.
pub open spec fn num_of(s: Seq<char>) -> Option<int> {
    if s.len() == 0 {
        None
    } else {
        let body = if s[0] == '-' || s[0] == '+' {
            s.drop_first()
        } else {
            s
        };
        match num_body(body) {
            None => None,
            Some(m) => Some(
                if s[0] == '-' {
                    -m
                } else {
                    m
                },
            ),
        }
    }
}

/// A numeric value: `NaN` or a signed count of billionths.
#[derive(Clone, Copy, Debug)]
pub enum Num {
    /// Not a number: what unparsable text becomes.
    NaN,
    /// A finite value, in billionths.
    Fin(i128),
}

impl View for Num {
    type V = Option<int>;

    open spec fn view(&self) -> Option<int> {
        match *self {
            Num::NaN => None,
            Num::Fin(u) => Some(u as int),
        }
    }
}

impl Num {
    /// Finite values stay within the saturation bound.
    pub open spec fn wf(self) -> bool {
        match self {
            Num::NaN => true,
            Num::Fin(u) => -SAT_LIMIT <= u <= SAT_LIMIT,
        }
    }
}

/// A comparison operator of the predicate language.
#[derive(Clone, Copy, Debug, PartialEq, Eq)]
pub enum CmpOp {
    /// `<`
    Lt,
    /// `<=`
    Le,
    /// `>`
    Gt,
    /// `>=`
    Ge,
    /// `=` or `==`
    Eq,
    /// `!=`
    Ne,
}

/// Numeric comparison with NaN semantics: when either side is `None`, only
/// `!=` holds.
pub open spec fn cmp_eval(op: CmpOp, a: Option<int>, b: Option<int>) -> bool {
    match (a, b) {
        (Some(x), Some(y)) => match op {
            CmpOp::Lt => x < y,
            CmpOp::Le => x <= y,
            CmpOp::Gt => x > y,
            CmpOp::Ge => x >= y,
            CmpOp::Eq => x == y,
            CmpOp::Ne => x != y,
        },
        _ => op is Ne,
    }
}

/// A value that fails numeric parse compares like NaN: `!=` against
/// anything is true, and `<`, `<=`, `>`, `>=`, `=` are all false.
pub proof fn lemma_nan_comparison(op: CmpOp, a: Option<int>, b: Option<int>)
    requires
        a is None || b is None,
    ensures
        cmp_eval(op, a, b) == (op is Ne),
{
}

/// Compares two numeric values under `op`.
pub fn num_cmp(op: CmpOp, a: &Num, b: &Num) -> (r: bool)
    ensures
        r == cmp_eval(op, a@, b@),
{
    match (a, b) {
        (Num::Fin(x), Num::Fin(y)) => match op {
            CmpOp::Lt => *x < *y,
            CmpOp::Le => *x <= *y,
            CmpOp::Gt => *x > *y,
            CmpOp::Ge => *x >= *y,
            CmpOp::Eq => *x == *y,
            CmpOp::Ne => *x != *y,
        },
        _ => matches!(op, CmpOp::Ne),
    }
}

/// Parses `s` as a fixed-point decimal; anything outside the numeric
/// domain becomes `NaN`.
pub fn parse_num(s: &str) -> (r: Num)
    ensures
        r@ == num_of(s@),
        r.wf(),
{
    let v = chars_of(s);
    let n = v.len();
    if n == 0 {
        return Num::NaN;
    }
    let c0 = v[0];
    let neg = c0 == '-';
    let start: usize = if c0 == '-' || c0 == '+' {
        1
    } else {
        0
    };
    let ghost body = if c0 == '-' || c0 == '+' {
        s@.drop_first()
    } else {
        s@
    };
    proof {
        assert(body =~= s@.skip(start as int));
    }
    // Scan the integer digits.
    let mut i = start;
    let mut int_acc: i128 = 0;
    let mut int_len: usize = 0;
    while i < n && is_digit(v[i]) && int_len <= 18
        invariant
            start <= i <= n,
            n == v@.len(),
            v@ == s@,
            int_len == i - start,
            forall|j: int| start <= j < i ==> is_digit_char(v@[j]),
            int_acc == digits_val(s@.subrange(start as int, i as int)),
            0 <= int_acc < pow10((i - start) as nat),
            int_len <= 19,
        decreases n - i,
    {
        proof {
            let pre = s@.subrange(start as int, i as int);
            let ext = s@.subrange(start as int, i + 1);
            assert(ext.drop_last() =~= pre);
            assert(all_digits(ext));
            lemma_digits_val_bound(ext);
            lemma_pow10_le((i - start) as nat, 18);
            lemma_pow10_concrete();
            assert(int_acc * 10 + 10 <= 10000000000000000000) by (nonlinear_arith)
                requires
                    0 <= int_acc < 1000000000000000000,
            ;
        }
        int_acc = int_acc * 10 + digit_value(v[i]) as i128;
        int_len = int_len + 1;
        i = i + 1;
    }
    if int_len > 18 {
        // Too many integer digits: the spec-level integer part is longer
        // than eighteen whatever follows.
        proof {
            assert forall|j: int| 0 <= j < 19 implies is_digit_char(body[j]) by {
                assert(body[j] == s@[j + start]);
            }
            lemma_long_int_part_rejected(body);
        }
        return Num::NaN;
    }
    let ghost d = match find_elem(body, '.') {
        None => body.len() as int,
        Some(k) => k,
    };
    if i == n {
        // No point, digits only.
        proof {
            assert forall|j: int| 0 <= j < body.len() implies body[j] != '.' by {
                assert(body[j] == s@[j + start]);
            }
            lemma_find_elem_none(body, '.');
            assert(body.take(body.len() as int) =~= body);
            assert forall|j: int| 0 <= j < body.len() implies is_digit_char(body[j]) by {
                assert(body[j] == s@[j + start]);
            }
            assert(body =~= s@.subrange(start as int, n as int));
        }
        if int_len == 0 {
            return Num::NaN;
        }
        proof {
            lemma_pow10_le(int_len as nat, 18);
            lemma_pow10_concrete();
            assert(0 <= int_acc * SCALE < SAT_LIMIT) by (nonlinear_arith)
                requires
                    0 <= int_acc < 1000000000000000000,
                    SCALE == 1000000000,
                    SAT_LIMIT == 100000000000000000000000000000000000000,
            ;
        }
        let units = int_acc * SCALE;
        return if neg {
            Num::Fin(-units)
        } else {
            Num::Fin(units)
        };
    }
    if v[i] != '.' {
        // A character that is neither digit nor point: not in the domain.
        proof {
            lemma_reject_bad_char(body, i - start);
        }
        return Num::NaN;
    }
    let dot = i;
    proof {
        assert forall|j: int| 0 <= j < (dot - start) implies body[j] != '.' by {
            assert(body[j] == s@[j + start]);
            assert(is_digit_char(body[j]));
        }
        assert(body[dot - start] == s@[dot as int]);
        lemma_find_elem_at(body, '.', dot - start);
        assert(d == dot - start);
    }
    // Scan the fractional digits.
    i = i + 1;
    let mut frac_acc: i128 = 0;
    let mut frac_len: usize = 0;
    while i < n && is_digit(v[i]) && frac_len <= 9
        invariant
            dot < i <= n,
            n == v@.len(),
            v@ == s@,
            frac_len == i - dot - 1,
            forall|j: int| dot < j < i ==> is_digit_char(v@[j]),
            frac_acc == digits_val(s@.subrange(dot + 1, i as int)),
            0 <= frac_acc < pow10((i - dot - 1) as nat),
            frac_len <= 10,
        decreases n - i,
    {
        proof {
            let pre = s@.subrange(dot + 1, i as int);
            let ext = s@.subrange(dot + 1, i + 1);
            assert(ext.drop_last() =~= pre);
            assert(all_digits(ext));
            lemma_digits_val_bound(ext);
            lemma_pow10_le((i - dot - 1) as nat, 9);
            lemma_pow10_concrete();
            assert(frac_acc * 10 + 10 <= 10000000000) by (nonlinear_arith)
                requires
                    0 <= frac_acc < 1000000000,
            ;
        }
        frac_acc = frac_acc * 10 + digit_value(v[i]) as i128;
        frac_len = frac_len + 1;
        i = i + 1;
    }
    let ghost fp = body.skip(d + 1);
    proof {
        assert(fp =~= s@.subrange(dot + 1, n as int));
    }
    if frac_len > 9 {
        proof {
            assert(is_digit_char(fp[9]));
            assert(fp.len() > 9);
        }
        return Num::NaN;
    }
    if i < n {
        // A character after the fractional digits that is not a digit: the
        // spec-level fractional part holds a non-digit.
        proof {
            assert(fp[i - dot - 1] == s@[i as int]);
            assert(!is_digit_char(fp[i - dot - 1]));
        }
        return Num::NaN;
    }
    if int_len == 0 && frac_len == 0 {
        proof {
            assert(body.take(d).len() == 0);
            assert(fp.len() == 0);
        }
        return Num::NaN;
    }
    proof {
        assert(body.take(d) =~= s@.subrange(start as int, dot as int));
        assert forall|j: int| 0 <= j < body.take(d).len() implies is_digit_char(
            body.take(d)[j],
        ) by {
            assert(body.take(d)[j] == s@[j + start]);
        }
        assert(fp =~= s@.subrange(dot + 1, i as int));
    }
    let scale_rest = pow10_exec(9 - frac_len as u32);
    proof {
        lemma_pow10_le(int_len as nat, 18);
        lemma_pow10_le(frac_len as nat, 9);
        lemma_pow10_le((9 - frac_len) as nat, 9);
        lemma_pow10_concrete();
        assert(0 <= int_acc * SCALE + frac_acc * scale_rest < SAT_LIMIT) by (nonlinear_arith)
            requires
                0 <= int_acc < 1000000000000000000,
                0 <= frac_acc < 1000000000,
                0 < scale_rest <= 1000000000,
                SCALE == 1000000000,
                SAT_LIMIT == 100000000000000000000000000000000000000,
        ;
    }
    let units = int_acc * SCALE + frac_acc * scale_rest;
    if neg {
        Num::Fin(-units)
    } else {
        Num::Fin(units)
    }
}

/// Whether `c` is a decimal digit.
#[verifier::when_used_as_spec(is_digit_char)]
fn is_digit(c: char) -> (r: bool)
    ensures
        r == is_digit_char(c),
{
    let u = c as u32;
    48 <= u && u <= 57
}

/// The value of the digit `c`.
fn digit_value(c: char) -> (r: u32)
    requires
        is_digit_char(c),
    ensures
        r == digit_val(c),
{
    c as u32 - 48
}

/// Ten to the `k`, executable.
fn pow10_exec(k: u32) -> (r: i128)
    requires
        k <= 27,
    ensures
        r == pow10(k as nat),
{
    let mut r: i128 = 1;
    let mut j: u32 = 0;
    while j < k
        invariant
            j <= k,
            k <= 27,
            r == pow10(j as nat),
            1 <= r,
        decreases k - j,
    {
        proof {
            lemma_pow10_le(j as nat, 26);
            lemma_pow10_concrete();
            assert(r * 10 <= 1000000000000000000000000000) by (nonlinear_arith)
                requires
                    1 <= r <= 100000000000000000000000000,
            ;
        }
        r = r * 10;
        j = j + 1;
    }
    r
}

/// The concrete powers of ten that the bounds below use.
pub proof fn lemma_pow10_concrete()
    ensures
        pow10(9) == 1000000000,
        pow10(10) == 10000000000,
        pow10(18) == 1000000000000000000,
        pow10(26) == 100000000000000000000000000,
{
    reveal_with_fuel(pow10, 28);
}

/// `pow10` is monotone.
pub proof fn lemma_pow10_le(a: nat, b: nat)
    requires
        a <= b,
    ensures
        0 < pow10(a) <= pow10(b),
    decreases b,
{
    if b > 0 {
        if a == b {
            lemma_pow10_le((b - 1) as nat, (b - 1) as nat);
        } else {
            lemma_pow10_le(a, (b - 1) as nat);
        }
    }
}

proof fn lemma_long_int_part_rejected(body: Seq<char>)
    requires
        body.len() >= 19,
        forall|j: int| 0 <= j < 19 ==> is_digit_char(body[j]),
    ensures
        num_body(body) is None,
{
    lemma_find_elem(body, '.');
    match find_elem(body, '.') {
        None => {
            assert(body.take(body.len() as int).len() >= 19);
        },
        Some(k) => {
            assert(body[k] == '.');
            assert(!is_digit_char('.'));
            assert(k >= 19);
            assert(body.take(k).len() >= 19);
        },
    }
}

proof fn lemma_reject_bad_char(body: Seq<char>, k: int)
    requires
        0 <= k < body.len(),
        !is_digit_char(body[k]),
        body[k] != '.',
        forall|j: int| 0 <= j < k ==> is_digit_char(body[j]),
    ensures
        num_body(body) is None,
{
    lemma_find_elem(body, '.');
    match find_elem(body, '.') {
        None => {
            assert(body.take(body.len() as int)[k] == body[k]);
        },
        Some(d) => {
            assert(body[d] == '.');
            assert(d > k);
            assert(body.take(d)[k] == body[k]);
        },
    }
}

/// Clamping into the saturation range.
pub open spec fn clamp_units(x: int) -> int {
    if x > SAT_LIMIT {
        SAT_LIMIT as int
    } else if x < -SAT_LIMIT {
        -SAT_LIMIT
    } else {
        x
    }
}

/// Adds two bounded totals, saturating at the representation bound.
pub fn sat_add(a: i128, b: i128) -> (r: i128)
    requires
        -SAT_LIMIT <= a <= SAT_LIMIT,
        -SAT_LIMIT <= b <= SAT_LIMIT,
    ensures
        r == clamp_units(a + b),
{
    match a.checked_add(b) {
        Some(s) => {
            if s > SAT_LIMIT {
                SAT_LIMIT
            } else if s < -SAT_LIMIT {
                -SAT_LIMIT
            } else {
                s
            }
        },
        None => {
            if a > 0 {
                SAT_LIMIT
            } else {
                -SAT_LIMIT
            }
        },
    }
}

/// The decimal text of a numeric value: `NaN`, or the signed fixed-point
/// rendering with trailing fractional zeros removed.
pub open spec fn num_text(v: Option<int>) -> Seq<char> {
    match v {
        None => seq!['N', 'a', 'N'],
        Some(u) => {
            let m = if u < 0 {
                -u
            } else {
                u
            };
            let sgn: Seq<char> = if u < 0 {
                seq!['-']
            } else {
                Seq::empty()
            };
            let ip = m / (SCALE as int);
            let fp = m % (SCALE as int);
            sgn + dec_str(ip as nat) + (if fp == 0 {
                Seq::<char>::empty()
            } else {
                seq!['.'] + frac_text(fp as nat, 9)
            })
        },
    }
}

/// The digits of `fp` zero-padded to width `w`, with trailing zeros
/// removed.
pub open spec fn frac_text(fp: nat, w: nat) -> Seq<char>
    decreases w,
{
    if w == 0 {
        Seq::empty()
    } else if fp % 10 == 0 {
        frac_text(fp / 10, (w - 1) as nat)
    } else {
        pad_digits(fp, w)
    }
}

/// The digits of `fp` zero-padded to width `w`.
pub open spec fn pad_digits(fp: nat, w: nat) -> Seq<char>
    decreases w,
{
    if w == 0 {
        Seq::empty()
    } else {
        pad_digits(fp / 10, (w - 1) as nat).push(digit_char((fp % 10) as int))
    }
}

fn push_padded(out: &mut String, fp: u128, w: u32)
    ensures
        final(out)@ == old(out)@ + pad_digits(fp as nat, w as nat),
    decreases w,
{
    if w == 0 {
        proof {
            assert(old(out)@ + pad_digits(fp as nat, 0) =~= old(out)@);
        }
    } else {
        push_padded(out, fp / 10, w - 1);
        let d = (fp % 10) as u8;
        out.append(crate::text::digit_str(d));
    }
}

/// Appends the decimal text of `n` to `out`.
pub fn push_num(out: &mut String, n: &Num)
    requires
        n.wf(),
    ensures
        final(out)@ == old(out)@ + num_text(n@),
{
    let ghost base = out@;
    match n {
        Num::NaN => {
            proof {
                reveal_strlit("NaN");
            }
            out.append("NaN");
            proof {
                assert(out@ =~= base + num_text(n@));
            }
        },
        Num::Fin(uref) => {
            let u = *uref;
            let ghost sgn: Seq<char> = if u < 0 {
                seq!['-']
            } else {
                Seq::empty()
            };
            if u < 0 {
                proof {
                    reveal_strlit("-");
                }
                out.append("-");
            }
            proof {
                assert(out@ =~= base + sgn);
            }
            let m: u128 = if u < 0 {
                (-u) as u128
            } else {
                u as u128
            };
            let ghost mi: int = if u < 0 {
                -(u as int)
            } else {
                u as int
            };
            proof {
                assert(m == mi);
            }
            push_decimal(out, m / 1000000000);
            proof {
                assert(m / 1000000000 == mi / (SCALE as int));
                assert(out@ =~= base + sgn + dec_str((mi / (SCALE as int)) as nat));
            }
            let mut fp = m % 1000000000;
            proof {
                assert(fp == mi % (SCALE as int));
            }
            let ghost fp0: nat = (mi % (SCALE as int)) as nat;
            if fp > 0 {
                proof {
                    reveal_strlit(".");
                }
                out.append(".");
                let mut w: u32 = 9;
                proof {
                    lemma_pow10_concrete();
                }
                while fp % 10 == 0
                    invariant
                        1 <= w <= 9,
                        fp > 0,
                        fp < pow10(w as nat),
                        frac_text(fp0, 9) == frac_text(fp as nat, w as nat),
                    decreases w,
                {
                    proof {
                        reveal_with_fuel(pow10, 2);
                        assert(pow10(w as nat) == 10 * pow10((w - 1) as nat));
                        if w == 1 {
                            assert(fp < 10);
                            assert(fp % 10 == fp);
                            assert(false);
                        }
                    }
                    fp = fp / 10;
                    w = w - 1;
                }
                push_padded(out, fp, w);
                proof {
                    assert(frac_text(fp as nat, w as nat) == pad_digits(fp as nat, w as nat));
                    assert(out@ =~= base + sgn + dec_str((mi / (SCALE as int)) as nat) + (
                    seq!['.'] + frac_text(fp0, 9)));
                    assert(out@ =~= base + num_text(n@));
                }
            } else {
                proof {
                    assert(out@ =~= base + num_text(n@));
                }
            }
        },
    }
}

} // verus!

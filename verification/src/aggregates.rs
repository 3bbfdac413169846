//! Aggregate accumulators: Min, Max, Sum, Avg, Count.
//!
//! Each accumulator folds a stream of fixed-point values (billionths, as in
//! [`crate::numeric`]) into one summary. Values are fed only when a field
//! parses as a number; a field that does not parse is skipped and never
//! reaches an accumulator. `result` is a pure projection: `NaN` for Min,
//! Max and Avg before the first value, zero for Sum and Count by
//! construction. Running totals saturate at the representation bound
//! instead of overflowing.

use vstd::prelude::*;

use crate::command::AggKind;
use crate::numeric::{clamp_units, sat_add, Num, SAT_LIMIT, SCALE};

verus! {

/// Running total.
#[derive(Clone, Copy, Debug)]
pub struct Sum {
    /// The saturating sum of the applied values.
    pub total: i128,
}

impl Sum {
    /// A sum with no values applied: zero.
    pub fn new() -> (r: Self)
        ensures
            r.total == 0,
    {
        Sum { total: 0 }
    }
}

/// Running total and count; the mean.
#[derive(Clone, Copy, Debug)]
pub struct Avg {
    /// The saturating sum of the applied values.
    pub total: i128,
    /// How many values were applied, saturating.
    pub count: usize,
}

impl Avg {
    /// An average with no values applied.
    pub fn new() -> (r: Self)
        ensures
            r.total == 0,
            r.count == 0,
    {
        Avg { total: 0, count: 0 }
    }
}

/// Smallest value seen so far.
#[derive(Clone, Copy, Debug)]
pub struct Min {
    /// The running minimum; meaningless until `initialized`.
    pub min_value: i128,
    /// Whether any value was applied yet.
    pub initialized: bool,
}

impl Min {
    /// A minimum with no values applied.
    pub fn new() -> (r: Self)
        ensures
            !r.initialized,
            r.min_value == 0,
    {
        Min { min_value: 0, initialized: false }
    }
}

/// Largest value seen so far.
#[derive(Clone, Copy, Debug)]
pub struct Max {
    /// The running maximum; meaningless until `initialized`.
    pub max_value: i128,
    /// Whether any value was applied yet.
    pub initialized: bool,
}

impl Max {
    /// A maximum with no values applied.
    pub fn new() -> (r: Self)
        ensures
            !r.initialized,
            r.max_value == 0,
    {
        Max { max_value: 0, initialized: false }
    }
}

/// How many values were applied.
#[derive(Clone, Copy, Debug)]
pub struct Count {
    /// The number of applied values, saturating.
    pub count: usize,
}

impl Count {
    /// A count with no values applied: zero.
    pub fn new() -> (r: Self)
        ensures
            r.count == 0,
    {
        Count { count: 0 }
    }
}

/// `c + 1`, staying at the largest representable count.
pub open spec fn inc_sat(c: nat) -> nat {
    if c < usize::MAX {
        c + 1
    } else {
        c
    }
}

/// The closed set of accumulators behind one `applied`/`result` capability.
#[derive(Clone, Copy, Debug)]
pub enum Accumulator {
    /// Running total.
    Sum(Sum),
    /// Running mean.
    Avg(Avg),
    /// Running minimum.
    Min(Min),
    /// Running maximum.
    Max(Max),
    /// Running count.
    Count(Count),
}

impl Accumulator {
    /// Totals stay within the saturation bound.
    pub open spec fn wf(self) -> bool {
        match self {
            Accumulator::Sum(s) => -SAT_LIMIT <= s.total <= SAT_LIMIT,
            Accumulator::Avg(a) => -SAT_LIMIT <= a.total <= SAT_LIMIT,
            Accumulator::Min(m) => -SAT_LIMIT <= m.min_value <= SAT_LIMIT,
            Accumulator::Max(m) => -SAT_LIMIT <= m.max_value <= SAT_LIMIT,
            Accumulator::Count(_) => true,
        }
    }

    /// The kind of this accumulator.
    pub open spec fn kind(self) -> AggKind {
        match self {
            Accumulator::Sum(_) => AggKind::Sum,
            Accumulator::Avg(_) => AggKind::Avg,
            Accumulator::Min(_) => AggKind::Min,
            Accumulator::Max(_) => AggKind::Max,
            Accumulator::Count(_) => AggKind::Count,
        }
    }

    /// The fresh accumulator of the given kind.
    pub open spec fn init(kind: AggKind) -> Accumulator {
        match kind {
            AggKind::Sum => Accumulator::Sum(Sum { total: 0 }),
            AggKind::Avg => Accumulator::Avg(Avg { total: 0, count: 0 }),
            AggKind::Min => Accumulator::Min(Min { min_value: 0, initialized: false }),
            AggKind::Max => Accumulator::Max(Max { max_value: 0, initialized: false }),
            AggKind::Count => Accumulator::Count(Count { count: 0 }),
        }
    }

    /// The state after one more value.
    pub open spec fn applied(self, v: int) -> Accumulator {
        match self {
            Accumulator::Sum(s) => Accumulator::Sum(
                Sum { total: clamp_units(s.total + v) as i128 },
            ),
            Accumulator::Avg(a) => Accumulator::Avg(
                Avg {
                    total: clamp_units(a.total + v) as i128,
                    count: inc_sat(a.count as nat) as usize,
                },
            ),
            Accumulator::Min(m) => {
                if !m.initialized || v < m.min_value {
                    Accumulator::Min(Min { min_value: v as i128, initialized: true })
                } else {
                    self
                }
            },
            Accumulator::Max(m) => {
                if !m.initialized || v > m.max_value {
                    Accumulator::Max(Max { max_value: v as i128, initialized: true })
                } else {
                    self
                }
            },
            Accumulator::Count(c) => Accumulator::Count(
                Count { count: inc_sat(c.count as nat) as usize },
            ),
        }
    }

    /// The state after a whole stream of values, first to last.
    pub open spec fn folded(init: Accumulator, vs: Seq<int>) -> Accumulator
        decreases vs.len(),
    {
        if vs.len() == 0 {
            init
        } else {
            Accumulator::folded(init, vs.drop_last()).applied(vs.last())
        }
    }

    /// The projected result: the value of this summary so far.
    pub open spec fn result_spec(self) -> Option<int> {
        match self {
            Accumulator::Sum(s) => Some(s.total as int),
            Accumulator::Avg(a) => {
                if a.count == 0 {
                    None
                } else {
                    Some(div_trunc(a.total as int, a.count as int))
                }
            },
            Accumulator::Min(m) => {
                if m.initialized {
                    Some(m.min_value as int)
                } else {
                    None
                }
            },
            Accumulator::Max(m) => {
                if m.initialized {
                    Some(m.max_value as int)
                } else {
                    None
                }
            },
            Accumulator::Count(c) => Some(c.count * (SCALE as int)),
        }
    }

    /// A fresh accumulator of the given kind.
    pub fn new(kind: AggKind) -> (r: Self)
        ensures
            r == Accumulator::init(kind),
            r.wf(),
    {
        match kind {
            AggKind::Sum => Accumulator::Sum(Sum::new()),
            AggKind::Avg => Accumulator::Avg(Avg::new()),
            AggKind::Min => Accumulator::Min(Min::new()),
            AggKind::Max => Accumulator::Max(Max::new()),
            AggKind::Count => Accumulator::Count(Count::new()),
        }
    }

    /// Feeds one value.
    pub fn apply(&mut self, value: i128)
        requires
            old(self).wf(),
            -SAT_LIMIT <= value <= SAT_LIMIT,
        ensures
            *final(self) == old(self).applied(value as int),
            final(self).wf(),
    {
        match self {
            Accumulator::Sum(s) => {
                s.total = sat_add(s.total, value);
            },
            Accumulator::Avg(a) => {
                a.total = sat_add(a.total, value);
                if a.count < usize::MAX {
                    a.count = a.count + 1;
                }
            },
            Accumulator::Min(m) => {
                if !m.initialized || value < m.min_value {
                    m.min_value = value;
                    m.initialized = true;
                }
            },
            Accumulator::Max(m) => {
                if !m.initialized || value > m.max_value {
                    m.max_value = value;
                    m.initialized = true;
                }
            },
            Accumulator::Count(c) => {
                if c.count < usize::MAX {
                    c.count = c.count + 1;
                }
            },
        }
    }

    /// Projects the result so far.
    pub fn result(&self) -> (r: Num)
        requires
            self.wf(),
        ensures
            r@ == self.result_spec(),
            r.wf(),
    {
        match self {
            Accumulator::Sum(s) => Num::Fin(s.total),
            Accumulator::Avg(a) => {
                if a.count == 0 {
                    Num::NaN
                } else {
                    Num::Fin(div_trunc_exec(a.total, a.count))
                }
            },
            Accumulator::Min(m) => {
                if m.initialized {
                    Num::Fin(m.min_value)
                } else {
                    Num::NaN
                }
            },
            Accumulator::Max(m) => {
                if m.initialized {
                    Num::Fin(m.max_value)
                } else {
                    Num::NaN
                }
            },
            Accumulator::Count(c) => {
                let n = count_result_units(c.count);
                Num::Fin(n)
            },
        }
    }
}

/// Quotient truncated toward zero.
pub open spec fn div_trunc(t: int, c: int) -> int {
    if t >= 0 {
        t / c
    } else {
        -((-t) / c)
    }
}

/// Quotient truncated toward zero, executable.
fn div_trunc_exec(t: i128, c: usize) -> (r: i128)
    requires
        c > 0,
        -SAT_LIMIT <= t <= SAT_LIMIT,
    ensures
        r == div_trunc(t as int, c as int),
        -SAT_LIMIT <= r <= SAT_LIMIT,
{
    let m: u128 = if t < 0 {
        (-t) as u128
    } else {
        t as u128
    };
    let q = m / (c as u128);
    proof {
        assert(q <= m) by (nonlinear_arith)
            requires
                q == m / (c as u128),
                c >= 1,
        ;
    }
    if t < 0 {
        -(q as i128)
    } else {
        q as i128
    }
}

/// The count, in billionths, as a bounded total.
fn count_result_units(c: usize) -> (r: i128)
    ensures
        r == c * (SCALE as int),
        -SAT_LIMIT <= r <= SAT_LIMIT,
{
    let wide = (c as u128) * 1000000000;
    proof {
        assert((c as u128) * 1000000000 <= 0xffffffffffffffffu128 * 1000000000)
            by (nonlinear_arith)
            requires
                c as u128 <= 0xffffffffffffffffu128,
        ;
    }
    wide as i128
}

/// Min, Max and Avg over no applied values yield NaN; Sum and Count over no
/// applied values yield zero.
pub proof fn lemma_zero_applied_results(kind: AggKind)
    ensures
        (kind == AggKind::Min || kind == AggKind::Max || kind == AggKind::Avg)
            ==> Accumulator::init(kind).result_spec() is None,
        kind == AggKind::Sum ==> Accumulator::init(kind).result_spec() == Some(0int),
        kind == AggKind::Count ==> Accumulator::init(kind).result_spec() == Some(0int),
{
}

/// Folding preserves well-formedness.
pub proof fn lemma_folded_wf(init: Accumulator, vs: Seq<int>)
    requires
        init.wf(),
        forall|i: int| 0 <= i < vs.len() ==> -SAT_LIMIT <= #[trigger] vs[i] <= SAT_LIMIT,
    ensures
        Accumulator::folded(init, vs).wf(),
    decreases vs.len(),
{
    if vs.len() > 0 {
        lemma_folded_wf(init, vs.drop_last());
    }
}

/// The first entry of `entries` whose name reads `label`, if any.
pub open spec fn lookup_in(
    entries: Seq<(String, Accumulator)>,
    label: Seq<char>,
) -> Option<Accumulator> {
    match crate::seqtools::find_pred(entries, |e: (String, Accumulator)| e.0@ == label) {
        None => None,
        Some(i) => Some(entries[i].1),
    }
}

/// A set of named stateful accumulators, keyed by the full textual
/// aggregate expression; adding under an existing name replaces its entry.
#[derive(Debug)]
pub struct Aggregates {
    /// The named accumulators, in insertion order.
    pub functions: Vec<(String, Accumulator)>,
}

impl Aggregates {
    /// The accumulator registered under `label`, if any.
    pub open spec fn lookup(self, label: Seq<char>) -> Option<Accumulator> {
        lookup_in(self.functions@, label)
    }

    /// An empty registry.
    pub fn new() -> (r: Self)
        ensures
            r.functions@.len() == 0,
    {
        Aggregates { functions: Vec::new() }
    }

    /// Registers `aggregate` under `column_name`, replacing any entry of
    /// that name.
    pub fn add_function(&mut self, column_name: String, aggregate: Accumulator)
        ensures
            forall|l: Seq<char>|
                #[trigger] final(self).lookup(l) == (if l == column_name@ {
                    Some(aggregate)
                } else {
                    old(self).lookup(l)
                }),
            final(self).functions@.len() <= old(self).functions@.len() + 1,
            forall|j: int|
                0 <= j < final(self).functions@.len() ==> ((#[trigger] final(self).functions@[j]).1
                    == aggregate || old(self).functions@.contains(final(self).functions@[j])),
    {
        let n = self.functions.len();
        let mut i: usize = 0;
        let mut at: Option<usize> = None;
        while i < n
            invariant
                i <= n,
                n == self.functions@.len(),
                match at {
                    None => forall|j: int| 0 <= j < i ==> self.functions@[j].0@ != column_name@,
                    Some(k) => k < i && self.functions@[k as int].0@ == column_name@ && forall|
                        j: int,
                    |
                        0 <= j < k ==> self.functions@[j].0@ != column_name@,
                },
            decreases n - i,
        {
            if at.is_none() && crate::text::str_eq(
                self.functions[i].0.as_str(),
                column_name.as_str(),
            ) {
                at = Some(i);
            }
            i = i + 1;
        }
        let ghost pre = self.functions@;
        match at {
            Some(k) => {
                self.functions.set(k, (column_name, aggregate));
                proof {
                    lemma_lookup_set(pre, self.functions@, k as int);
                }
            },
            None => {
                self.functions.push((column_name, aggregate));
                proof {
                    lemma_lookup_push(pre, self.functions@);
                }
            },
        }
    }

    /// The result for each requested column: its registered accumulator's
    /// projection, or `NaN` for a column with no entry.
    pub fn results(&self, columns: &[String]) -> (r: Vec<Num>)
        requires
            forall|j: int|
                0 <= j < self.functions@.len() ==> (#[trigger] self.functions@[j]).1.wf(),
        ensures
            r@.len() == columns@.len(),
            forall|j: int|
                0 <= j < columns@.len() ==> (#[trigger] r@[j])@ == (match self.lookup(
                    columns@[j]@,
                ) {
                    None => None::<int>,
                    Some(a) => a.result_spec(),
                }),
            forall|j: int| 0 <= j < r@.len() ==> (#[trigger] r@[j]).wf(),
    {
        let mut r: Vec<Num> = Vec::new();
        let n = columns.len();
        let mut j: usize = 0;
        while j < n
            invariant
                j <= n,
                n == columns@.len(),
                forall|k: int|
                    0 <= k < self.functions@.len() ==> (#[trigger] self.functions@[k]).1.wf(),
                r@.len() == j,
                forall|k: int|
                    0 <= k < j ==> (#[trigger] r@[k])@ == (match self.lookup(columns@[k]@) {
                        None => None::<int>,
                        Some(a) => a.result_spec(),
                    }),
                forall|k: int| 0 <= k < r@.len() ==> (#[trigger] r@[k]).wf(),
            decreases n - j,
        {
            let label: &String = &columns[j];
            let m = self.functions.len();
            let mut i: usize = 0;
            let mut found: Option<Num> = None;
            while i < m
                invariant
                    i <= m,
                    m == self.functions@.len(),
                    forall|k: int|
                        0 <= k < self.functions@.len() ==> (#[trigger] self.functions@[k]).1.wf(),
                    match found {
                        None => forall|k: int| 0 <= k < i ==> self.functions@[k].0@ != label@,
                        Some(v) => v@ == (match self.lookup(label@) {
                            None => None::<int>,
                            Some(a) => a.result_spec(),
                        }) && v.wf(),
                    },
                decreases m - i,
            {
                if found.is_none() && crate::text::str_eq(
                    self.functions[i].0.as_str(),
                    label.as_str(),
                ) {
                    proof {
                        crate::seqtools::lemma_find_pred_at(
                            self.functions@,
                            |e: (String, Accumulator)| e.0@ == label@,
                            i as int,
                        );
                    }
                    found = Some(self.functions[i].1.result());
                }
                i = i + 1;
            }
            let v = match found {
                Some(v) => v,
                None => {
                    proof {
                        crate::seqtools::lemma_find_pred_none(
                            self.functions@,
                            |e: (String, Accumulator)| e.0@ == label@,
                        );
                    }
                    Num::NaN
                },
            };
            r.push(v);
            j = j + 1;
        }
        r
    }
}

proof fn lemma_lookup_set(
    pre: Seq<(String, Accumulator)>,
    post: Seq<(String, Accumulator)>,
    i: int,
)
    requires
        0 <= i < pre.len(),
        post.len() == pre.len(),
        post[i].0@ == pre[i].0@,
        forall|j: int| 0 <= j < pre.len() && j != i ==> post[j] == pre[j],
        forall|j: int| 0 <= j < i ==> pre[j].0@ != pre[i].0@,
    ensures
        forall|l: Seq<char>|
            #[trigger] lookup_in(post, l) == (if l == pre[i].0@ {
                Some(post[i].1)
            } else {
                lookup_in(pre, l)
            }),
{
    assert forall|l: Seq<char>| true implies #[trigger] lookup_in(post, l) == (if l == pre[i].0@ {
        Some(post[i].1)
    } else {
        lookup_in(pre, l)
    }) by {
        let p = |e: (String, Accumulator)| e.0@ == l;
        crate::seqtools::lemma_find_pred(pre, p);
        crate::seqtools::lemma_find_pred(post, p);
        if l == pre[i].0@ {
            match crate::seqtools::find_pred(post, p) {
                None => {
                    assert(p(post[i]));
                    assert(false);
                },
                Some(k) => {
                    if k < i {
                        assert(post[k] == pre[k]);
                        assert(false);
                    }
                    assert(k == i);
                },
            }
        } else {
            match (crate::seqtools::find_pred(pre, p), crate::seqtools::find_pred(post, p)) {
                (None, None) => {},
                (None, Some(k)) => {
                    assert(p(post[k]));
                    assert(k != i);
                    assert(post[k] == pre[k]);
                    assert(false);
                },
                (Some(k), None) => {
                    assert(p(pre[k]));
                    assert(k != i);
                    assert(post[k] == pre[k]);
                    assert(false);
                },
                (Some(k1), Some(k2)) => {
                    assert(k1 != i && k2 != i);
                    assert(pre[k1] == post[k1]);
                    assert(post[k2] == pre[k2]);
                    assert(k1 == k2);
                },
            }
        }
    }
}

proof fn lemma_lookup_push(pre: Seq<(String, Accumulator)>, post: Seq<(String, Accumulator)>)
    requires
        post.len() == pre.len() + 1,
        forall|j: int| 0 <= j < pre.len() ==> post[j] == pre[j],
        forall|j: int| 0 <= j < pre.len() ==> pre[j].0@ != post[pre.len() as int].0@,
    ensures
        forall|l: Seq<char>|
            #[trigger] lookup_in(post, l) == (if l == post[pre.len() as int].0@ {
                Some(post[pre.len() as int].1)
            } else {
                lookup_in(pre, l)
            }),
{
    assert forall|l: Seq<char>|
        true implies #[trigger] lookup_in(post, l) == (if l == post[pre.len() as int].0@ {
        Some(post[pre.len() as int].1)
    } else {
        lookup_in(pre, l)
    }) by {
        let p = |e: (String, Accumulator)| e.0@ == l;
        crate::seqtools::lemma_find_pred(pre, p);
        crate::seqtools::lemma_find_pred(post, p);
        if l == post[pre.len() as int].0@ {
            match crate::seqtools::find_pred(post, p) {
                None => {
                    assert(p(post[pre.len() as int]));
                    assert(false);
                },
                Some(k) => {
                    if k < pre.len() {
                        assert(post[k] == pre[k]);
                        assert(false);
                    }
                    assert(k == pre.len());
                },
            }
        } else {
            match (crate::seqtools::find_pred(pre, p), crate::seqtools::find_pred(post, p)) {
                (None, None) => {},
                (None, Some(k)) => {
                    assert(p(post[k]));
                    assert(k != pre.len());
                    assert(post[k] == pre[k]);
                    assert(false);
                },
                (Some(k), None) => {
                    assert(p(pre[k]));
                    assert(post[k] == pre[k]);
                    assert(false);
                },
                (Some(k1), Some(k2)) => {
                    assert(pre[k1] == post[k1]);
                    assert(k2 != pre.len());
                    assert(post[k2] == pre[k2]);
                    assert(k1 == k2);
                },
            }
        }
    }
}

} // verus!

//! Splitting a file's bytes into rows.
//!
//! A row is a maximal run of bytes not containing the newline byte; the byte
//! after a newline starts the next row. The final row is produced even when
//! the data does not end with a newline, and a trailing newline does not
//! produce an extra empty row. A carriage return is an ordinary byte and
//! stays in its row.

use vstd::prelude::*;

use crate::seqtools::{
    count_elem, find_elem, lemma_count_elem_after_find, lemma_find_elem, lemma_find_elem_at,
    lemma_find_elem_none,
};

verus! {

/// The newline byte that separates rows.
pub const NEWLINE: u8 = 10;

/// The comma byte that separates fields within a row.
pub const COMMA: u8 = 44;

/// The rows of `data`: the pieces between newline bytes, where a trailing
/// newline closes the last row rather than opening an empty one.
pub open spec fn rows_of(data: Seq<u8>) -> Seq<Seq<u8>>
    decreases data.len(),
{
    if data.len() == 0 {
        Seq::empty()
    } else if data[0] == NEWLINE {
        seq![Seq::<u8>::empty()] + rows_of(data.drop_first())
    } else {
        let rest = rows_of(data.drop_first());
        if rest.len() == 0 {
            seq![seq![data[0]]]
        } else {
            seq![seq![data[0]] + rest[0]] + rest.skip(1)
        }
    }
}

/// Nonempty data has at least one row.
pub proof fn lemma_rows_of_nonempty(data: Seq<u8>)
    requires
        data.len() > 0,
    ensures
        rows_of(data).len() >= 1,
{
}

/// How `rows_of` decomposes at the first newline.
pub proof fn lemma_rows_of_step(data: Seq<u8>)
    requires
        data.len() > 0,
    ensures
        match find_elem(data, NEWLINE) {
            None => rows_of(data) == seq![data],
            Some(i) => rows_of(data) == seq![data.take(i)] + rows_of(data.skip(i + 1)),
        },
    decreases data.len(),
{
    lemma_find_elem(data, NEWLINE);
    if data[0] == NEWLINE {
        assert(data.skip(1) =~= data.drop_first());
        assert(data.take(0) =~= Seq::<u8>::empty());
        assert(rows_of(data) =~~= seq![data.take(0)] + rows_of(data.skip(1)));
    } else {
        let df = data.drop_first();
        if df.len() == 0 {
            reveal_with_fuel(rows_of, 2);
            lemma_find_elem_none(data, NEWLINE);
            assert(rows_of(data) =~~= seq![data]);
        } else {
            lemma_rows_of_step(df);
            lemma_find_elem(df, NEWLINE);
            match find_elem(df, NEWLINE) {
                None => {
                    lemma_rows_of_nonempty(df);
                    assert(seq![data[0]] + df =~= data);
                    assert(rows_of(data) =~~= seq![data]);
                },
                Some(i) => {
                    assert(seq![data[0]] + df.take(i) =~= data.take(i + 1));
                    assert(df.skip(i + 1) =~= data.skip(i + 2));
                    lemma_rows_of_nonempty(df);
                    assert(rows_of(data) =~~= seq![data.take(i + 1)] + rows_of(data.skip(i + 2)));
                },
            }
        }
    }
}

/// The number of rows equals the number of newlines, plus one when the data
/// does not end with a newline. This is what makes row counting by newline
/// counting correct, independent of a trailing newline.
pub proof fn lemma_rows_of_count(data: Seq<u8>)
    requires
        data.len() > 0,
    ensures
        rows_of(data).len() == count_elem(data, NEWLINE) + (if data.last() == NEWLINE {
            0int
        } else {
            1int
        }),
    decreases data.len(),
{
    let df = data.drop_first();
    if df.len() == 0 {
        reveal_with_fuel(rows_of, 2);
        reveal_with_fuel(count_elem, 2);
    } else {
        lemma_rows_of_count(df);
        assert(df.last() == data.last());
        if data[0] != NEWLINE {
            lemma_rows_of_nonempty(df);
        }
    }
}

/// Appending a newline to data that does not end with one does not change
/// its rows: it only closes the final row that was already there.
pub proof fn lemma_rows_of_trailing_newline(data: Seq<u8>)
    requires
        data.len() > 0,
        data.last() != NEWLINE,
    ensures
        rows_of(data.push(NEWLINE)) == rows_of(data),
    decreases data.len(),
{
    let df = data.drop_first();
    if df.len() == 0 {
        reveal_with_fuel(rows_of, 4);
        let p = data.push(NEWLINE);
        assert(p.drop_first() =~= seq![NEWLINE]);
        assert(seq![NEWLINE].drop_first() =~= Seq::<u8>::empty());
        assert(rows_of(seq![NEWLINE]) =~~= seq![Seq::<u8>::empty()]);
        assert(rows_of(p) =~~= seq![seq![data[0]]]);
        assert(rows_of(data) =~~= seq![seq![data[0]]]);
    } else {
        lemma_rows_of_trailing_newline(df);
        assert(data.push(NEWLINE).drop_first() =~= df.push(NEWLINE));
        lemma_rows_of_nonempty(df);
        lemma_rows_of_nonempty(df.push(NEWLINE));
        assert(rows_of(data.push(NEWLINE)) =~~= rows_of(data));
    }
}

/// There are never more rows than bytes.
pub proof fn lemma_rows_of_len_le(data: Seq<u8>)
    ensures
        rows_of(data).len() <= data.len(),
    decreases data.len(),
{
    if data.len() > 0 {
        lemma_rows_of_len_le(data.drop_first());
    }
}

/// Relies on `memchr::memchr`: the index of the first occurrence of `needle`
/// in `haystack`, or `None` when it does not occur.
#[verifier::external_body]
pub fn find_byte(haystack: &[u8], needle: u8) -> (r: Option<usize>)
    ensures
        match r {
            None => find_elem(haystack@, needle) is None,
            Some(i) => find_elem(haystack@, needle) == Some(i as int),
        },
{
    memchr::memchr(needle, haystack)
}

/// Counts the occurrences of `needle` in `data`.
pub fn count_byte_occurrences(data: &[u8], needle: u8) -> (n: usize)
    ensures
        n == count_elem(data@, needle),
{
    let mut off: usize = 0;
    let mut n: usize = 0;
    proof {
        assert(data@.skip(0) =~= data@);
    }
    loop
        invariant
            off <= data.len(),
            n <= off,
            n + count_elem(data@.skip(off as int), needle) == count_elem(data@, needle),
        decreases data@.len() - off,
    {
        let sub = vstd::slice::slice_subrange(data, off, data.len());
        match find_byte(sub, needle) {
            None => {
                proof {
                    lemma_count_elem_after_find(sub@, needle);
                }
                return n;
            },
            Some(i) => {
                proof {
                    lemma_find_elem(sub@, needle);
                    lemma_count_elem_after_find(sub@, needle);
                    assert(sub@.skip(i + 1) =~= data@.skip(off + i + 1));
                }
                n = n + 1;
                off = off + i + 1;
            },
        }
    }
}

/// Hands out the rows of a byte region, front to back, one at a time.
///
/// A new iterator must be created to scan the same region again.
pub struct LineIterator<'a> {
    data: &'a [u8],
    start: usize,
}

impl<'a> LineIterator<'a> {
    /// The cursor never points past the end of the data.
    pub closed spec fn wf(self) -> bool {
        self.start <= self.data@.len()
    }

    /// The underlying bytes.
    pub closed spec fn data_view(self) -> Seq<u8> {
        self.data@
    }

    /// The rows not yet handed out.
    pub closed spec fn remaining(self) -> Seq<Seq<u8>> {
        rows_of(self.data@.skip(self.start as int))
    }

    /// A fresh iterator over all of `data`'s rows.
    pub fn new(data: &'a [u8]) -> (it: LineIterator<'a>)
        ensures
            it.wf(),
            it.data_view() == data@,
            it.remaining() == rows_of(data@),
    {
        proof {
            assert(data@.skip(0) =~= data@);
        }
        LineIterator { data, start: 0 }
    }

    /// The next row, or `None` when all rows have been handed out.
    pub fn next(&mut self) -> (r: Option<&'a [u8]>)
        requires
            old(self).wf(),
        ensures
            final(self).wf(),
            final(self).data_view() == old(self).data_view(),
            match r {
                None => old(self).remaining().len() == 0 && final(self).remaining().len() == 0,
                Some(row) => {
                    &&& old(self).remaining().len() > 0
                    &&& row@ == old(self).remaining()[0]
                    &&& final(self).remaining() == old(self).remaining().drop_first()
                },
            },
    {
        let len = self.data.len();
        if self.start >= len {
            proof {
                assert(self.data@.skip(self.start as int) =~= Seq::<u8>::empty());
            }
            return None;
        }
        let ghost sfx = self.data@.skip(self.start as int);
        let mut pos = self.start;
        while pos < len && *vstd::slice::slice_index_get(self.data, pos) != NEWLINE
            invariant
                self.start <= pos <= len,
                len == self.data@.len(),
                forall|j: int| self.start <= j < pos ==> self.data@[j] != NEWLINE,
            decreases len - pos,
        {
            pos = pos + 1;
        }
        let row = vstd::slice::slice_subrange(self.data, self.start, pos);
        proof {
            lemma_rows_of_step(sfx);
            if pos < len {
                lemma_find_elem_at(sfx, NEWLINE, pos - self.start);
                assert(row@ =~= sfx.take(pos - self.start));
                assert(sfx.skip(pos - self.start + 1) =~= self.data@.skip(pos + 1));
            } else {
                lemma_find_elem_none(sfx, NEWLINE);
                assert(row@ =~= sfx);
                assert(self.data@.skip(len as int) =~= Seq::<u8>::empty());
            }
        }
        let ghost pre = *self;
        if pos < len {
            self.start = pos + 1;
        } else {
            self.start = len;
        }
        proof {
            assert(final(self).remaining() =~~= pre.remaining().drop_first());
        }
        Some(row)
    }
}

/// Borrows a byte region and hands out iterators over its rows.
pub struct CsvReader<'a> {
    data: &'a [u8],
}

impl<'a> CsvReader<'a> {
    /// The underlying bytes.
    pub closed spec fn data_view(self) -> Seq<u8> {
        self.data@
    }

    /// Wraps the given byte region.
    pub fn new(data: &'a [u8]) -> (r: CsvReader<'a>)
        ensures
            r.data_view() == data@,
    {
        CsvReader { data }
    }

    /// A fresh row iterator over the whole region.
    pub fn lines(&self) -> (it: LineIterator<'a>)
        ensures
            it.wf(),
            it.data_view() == self.data_view(),
            it.remaining() == rows_of(self.data_view()),
    {
        LineIterator::new(self.data)
    }
}

} // verus!

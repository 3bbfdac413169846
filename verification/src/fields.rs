//! Fields and headers: comma splitting, trimming and decoding of rows.
//!
//! A row's fields are the byte runs between comma bytes, positionally
//! aligned to the header; a missing position reads as empty text. Header
//! names are trimmed of surrounding ASCII whitespace and decoded leniently
//! (invalid UTF-8 becomes replacement characters); data fields are decoded
//! strictly, and a field that is not valid UTF-8 stops the query.

use vstd::prelude::*;

use crate::csv_reader::{LineIterator, COMMA};
use crate::seqtools::{find_elem, lemma_find_elem, lemma_split_elem_len, lemma_split_elem_step, split_elem};
use crate::text::{decode_lossy, decode_strict, lossy_decode_of, trim_ascii, trim_bytes};
use crate::QueryError;
use vstd::utf8::{decode_utf8, valid_utf8};

verus! {

/// The fields of a row: the byte runs between comma bytes.
pub open spec fn fields_of(row: Seq<u8>) -> Seq<Seq<u8>> {
    split_elem(row, COMMA)
}

/// The header names a header row yields: each field trimmed of ASCII
/// whitespace, then decoded leniently.
pub open spec fn header_names(row: Seq<u8>) -> Seq<Seq<char>> {
    Seq::new(fields_of(row).len(), |i: int| lossy_decode_of(trim_bytes(fields_of(row)[i])))
}

/// The field of `record` at position `idx`, as a byte slice.
fn nth_field<'a>(record: &'a [u8], idx: usize) -> (r: Option<&'a [u8]>)
    ensures
        match r {
            None => idx >= fields_of(record@).len(),
            Some(f) => idx < fields_of(record@).len() && f@ == fields_of(record@)[idx as int],
        },
{
    let len = record.len();
    let mut off: usize = 0;
    let mut k: usize = 0;
    proof {
        assert(record@.skip(0) =~= record@);
        assert(fields_of(record@).skip(0) =~= fields_of(record@));
    }
    loop
        invariant
            off <= len,
            len == record@.len(),
            k <= idx,
            k <= fields_of(record@).len(),
            fields_of(record@).skip(k as int) == split_elem(record@.skip(off as int), COMMA),
        decreases len - off,
    {
        let ghost sfx = record@.skip(off as int);
        proof {
            lemma_split_elem_step(sfx, COMMA);
            lemma_split_elem_len(sfx, COMMA);
            lemma_find_elem(sfx, COMMA);
        }
        let sub = vstd::slice::slice_subrange(record, off, len);
        match crate::csv_reader::find_byte(sub, COMMA) {
            None => {
                if k == idx {
                    let f = vstd::slice::slice_subrange(record, off, len);
                    proof {
                        assert(f@ =~= sfx);
                        assert(split_elem(sfx, COMMA) =~~= seq![sfx]);
                        assert(fields_of(record@)[idx as int] == fields_of(record@).skip(
                            k as int,
                        )[0]);
                    }
                    return Some(f);
                } else {
                    proof {
                        assert(split_elem(sfx, COMMA) =~~= seq![sfx]);
                        assert(fields_of(record@).len() == k + 1);
                    }
                    return None;
                }
            },
            Some(i) => {
                if k == idx {
                    let f = vstd::slice::slice_subrange(record, off, off + i);
                    proof {
                        assert(f@ =~= sfx.take(i as int));
                        assert(fields_of(record@)[idx as int] == fields_of(record@).skip(
                            k as int,
                        )[0]);
                    }
                    return Some(f);
                }
                proof {
                    assert(sfx.skip(i + 1) =~= record@.skip(off + i + 1));
                    assert(fields_of(record@).skip(k + 1) =~~= fields_of(record@).skip(
                        k as int,
                    ).drop_first());
                }
                off = off + i + 1;
                k = k + 1;
            },
        }
    }
}

/// The data field aligned to the first header named `required_header`:
/// `None` only when no header matches; a matched position the row does not
/// reach resolves to the empty string. The field count is never validated
/// against the header length.
///
/// The engine decodes whole rows centrally and stops with
/// [`QueryError::Utf8Decode`] before any field is read, so callers get
/// rows whose fields this function's precondition already holds of.
pub fn extract_field<'a>(record: &'a [u8], headers: &[String], required_header: &str) -> (r: Option<
    &'a str,
>)
    requires
        forall|i: int|
            0 <= i < fields_of(record@).len() ==> valid_utf8(#[trigger] fields_of(record@)[i]),
    ensures
        match find_elem(headers.deep_view(), required_header@) {
            None => r is None,
            Some(i) => match r {
                None => false,
                Some(f) => f@ == (if i < fields_of(record@).len() {
                    decode_utf8(fields_of(record@)[i])
                } else {
                    Seq::<char>::empty()
                }),
            },
        },
{
    match crate::condition::find_name(headers, required_header) {
        None => None,
        Some(i) => match nth_field(record, i) {
            None => {
                proof {
                    reveal_strlit("");
                }
                Some("")
            },
            Some(f) => {
                proof {
                    assert(valid_utf8(fields_of(record@)[i as int]));
                }
                match decode_strict(f) {
                    Some(text) => Some(text),
                    None => {
                        proof {
                            assert(false);
                        }
                        None
                    },
                }
            },
        },
    }
}

/// The fields that the row supplies for the given headers, in request
/// order: a header that matches nothing contributes nothing, and a matched
/// position the row does not reach resolves to the empty string.
pub open spec fn extracted_fields(
    record: Seq<u8>,
    headers: Seq<Seq<char>>,
    required: Seq<Seq<char>>,
) -> Seq<Seq<char>>
    decreases required.len(),
{
    if required.len() == 0 {
        Seq::empty()
    } else {
        let rest = extracted_fields(record, headers, required.drop_first());
        match find_elem(headers, required[0]) {
            None => rest,
            Some(i) => {
                if i < fields_of(record).len() {
                    seq![decode_utf8(fields_of(record)[i])] + rest
                } else {
                    seq![Seq::<char>::empty()] + rest
                }
            },
        }
    }
}

/// The data fields aligned to each of `required_headers`, in that order;
/// unmatched names are skipped and positions past the row's end read as
/// empty strings.
///
/// The engine decodes whole rows centrally and stops with
/// [`QueryError::Utf8Decode`] before any field is read, so callers get
/// rows whose fields this function's precondition already holds of.
pub fn extract_fields<'a>(
    record: &'a [u8],
    headers: &[String],
    required_headers: &[String],
) -> (r: Vec<&'a str>)
    requires
        forall|i: int|
            0 <= i < fields_of(record@).len() ==> valid_utf8(#[trigger] fields_of(record@)[i]),
    ensures
        r.deep_view() == extracted_fields(record@, headers.deep_view(), required_headers.deep_view()),
{
    let n = required_headers.len();
    let mut out: Vec<&'a str> = Vec::new();
    let mut j: usize = 0;
    proof {
        assert(required_headers.deep_view().skip(0) =~= required_headers.deep_view());
    }
    while j < n
        invariant
            j <= n,
            n == required_headers@.len(),
            forall|i: int|
                0 <= i < fields_of(record@).len() ==> valid_utf8(#[trigger] fields_of(record@)[i]),
            extracted_fields(record@, headers.deep_view(), required_headers.deep_view())
                == out.deep_view() + extracted_fields(
                record@,
                headers.deep_view(),
                required_headers.deep_view().skip(j as int),
            ),
        decreases n - j,
    {
        let ghost req_sfx = required_headers.deep_view().skip(j as int);
        proof {
            assert(req_sfx[0] == required_headers.deep_view()[j as int]);
            assert(req_sfx.drop_first() =~= required_headers.deep_view().skip(j + 1));
        }
        let h: &String = &required_headers[j];
        match extract_field(record, headers, h.as_str()) {
            None => {},
            Some(f) => {
                let ghost out_pre = out.deep_view();
                out.push(f);
                proof {
                    assert(out.deep_view() =~~= out_pre.push(f@));
                    assert(out_pre.push(f@) =~~= (out_pre + seq![f@]));
                }
            },
        }
        j = j + 1;
    }
    proof {
        assert(required_headers.deep_view().skip(n as int) =~= Seq::<Seq<char>>::empty());
        assert(out.deep_view() + Seq::<Seq<char>>::empty() =~~= out.deep_view());
    }
    out
}

/// Reads the header row: consumes the first remaining row of the iterator
/// and yields its trimmed, leniently decoded names. Fails only when no row
/// remains.
pub fn get_headers<'a>(line_iter: &mut LineIterator<'a>) -> (r: Result<Vec<String>, QueryError>)
    requires
        old(line_iter).wf(),
    ensures
        final(line_iter).wf(),
        final(line_iter).data_view() == old(line_iter).data_view(),
        match r {
            Err(e) => e == QueryError::MissingHeader && old(line_iter).remaining().len() == 0
                && final(line_iter).remaining().len() == 0,
            Ok(h) => old(line_iter).remaining().len() > 0 && h.deep_view() == header_names(
                old(line_iter).remaining()[0],
            ) && final(line_iter).remaining() == old(line_iter).remaining().drop_first(),
        },
{
    let row = match line_iter.next() {
        None => {
            return Err(QueryError::MissingHeader);
        },
        Some(row) => row,
    };
    let len = row.len();
    let mut names: Vec<String> = Vec::new();
    let mut off: usize = 0;
    proof {
        assert(row@.skip(0) =~= row@);
        assert(fields_of(row@).skip(0) =~= fields_of(row@));
    }
    loop
        invariant_except_break
            off <= len,
            len == row@.len(),
            names@.len() <= fields_of(row@).len(),
            fields_of(row@).skip(names@.len() as int) == split_elem(row@.skip(off as int), COMMA),
            forall|i: int|
                0 <= i < names@.len() ==> (#[trigger] names.deep_view()[i]) == lossy_decode_of(
                    trim_bytes(fields_of(row@)[i]),
                ),
        ensures
            names@.len() == fields_of(row@).len(),
            forall|i: int|
                0 <= i < names@.len() ==> (#[trigger] names.deep_view()[i]) == lossy_decode_of(
                    trim_bytes(fields_of(row@)[i]),
                ),
        decreases len - off,
    {
        let ghost sfx = row@.skip(off as int);
        let ghost k = names@.len() as int;
        proof {
            lemma_split_elem_step(sfx, COMMA);
            lemma_split_elem_len(sfx, COMMA);
            lemma_find_elem(sfx, COMMA);
            assert(fields_of(row@)[k] == fields_of(row@).skip(k)[0]);
        }
        let sub = vstd::slice::slice_subrange(row, off, len);
        match crate::csv_reader::find_byte(sub, COMMA) {
            None => {
                let piece = vstd::slice::slice_subrange(row, off, len);
                proof {
                    assert(piece@ =~= sfx);
                    assert(split_elem(sfx, COMMA) =~~= seq![sfx]);
                }
                let name = decode_lossy(trim_ascii(piece));
                let ghost pre = names.deep_view();
                names.push(name);
                proof {
                    assert(names.deep_view() =~~= pre.push(name@));
                    assert(fields_of(row@).len() == k + 1);
                }
                break ;
            },
            Some(i) => {
                let piece = vstd::slice::slice_subrange(row, off, off + i);
                proof {
                    assert(piece@ =~= sfx.take(i as int));
                }
                let name = decode_lossy(trim_ascii(piece));
                let ghost pre = names.deep_view();
                names.push(name);
                proof {
                    assert(names.deep_view() =~~= pre.push(name@));
                    assert(sfx.skip(i + 1) =~= row@.skip(off + i + 1));
                    assert(fields_of(row@).skip(k + 1) =~~= fields_of(row@).skip(k).drop_first());
                }
                off = off + i + 1;
            },
        }
    }
    proof {
        assert(names.deep_view() =~~= header_names(row@));
    }
    Ok(names)
}

} // verus!

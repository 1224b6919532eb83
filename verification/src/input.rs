//! The structure of numeric input: a single whitespace-separated column, or a
//! two-column table whose non-blank lines each give `x` and `value` as their
//! first two whitespace-separated fields.
//!
//! These functions find the fields and hand back their byte ranges
//! `(start, end)` in the buffer; reading each field as a number is left to
//! the caller, in the order the fields are listed.

use vstd::prelude::*;

verus! {

/// ASCII whitespace as `u8::is_ascii_whitespace` has it: space, tab, line
/// feed, form feed and carriage return.
pub open spec fn is_space(c: u8) -> bool {
    c == 0x20u8 || c == 0x09u8 || c == 0x0Au8 || c == 0x0Cu8 || c == 0x0Du8
}

/// The line feed that ends a line of a table.
pub const NEWLINE: u8 = 0x0Au8;

/// The whitespace-separated words of `s`, in order: the maximal runs of
/// bytes that are not whitespace.
pub open spec fn words(s: Seq<u8>) -> Seq<Seq<u8>>
    decreases s.len(),
{
    if s.len() == 0 {
        Seq::empty()
    } else {
        let w = words(s.drop_last());
        let c = s.last();
        if is_space(c) {
            w
        } else if s.len() == 1 || is_space(s[s.len() - 2]) {
            w.push(seq![c])
        } else {
            w.update(w.len() - 1, w.last().push(c))
        }
    }
}

/// The lines of `s`: the pieces between line feeds, as `split` on `\n`
/// gives them (an empty `s` is one empty line; a final `\n` is followed by
/// an empty line).
pub open spec fn lines(s: Seq<u8>) -> Seq<Seq<u8>>
    decreases s.len(),
{
    if s.len() == 0 {
        seq![Seq::empty()]
    } else {
        let l = lines(s.drop_last());
        if s.last() == NEWLINE {
            l.push(Seq::empty())
        } else {
            l.update(l.len() - 1, l.last().push(s.last()))
        }
    }
}

/// The rows that a table yields from its lines, and whether reading stopped
/// at a line with a single field: blank lines are skipped, every other line
/// gives its first two words, and the first line with only one word ends the
/// reading.
pub open spec fn table_rows(ls: Seq<Seq<u8>>) -> (Seq<(Seq<u8>, Seq<u8>)>, bool)
    decreases ls.len(),
{
    if ls.len() == 0 {
        (Seq::empty(), false)
    } else {
        let prev = table_rows(ls.drop_last());
        let w = words(ls.last());
        if prev.1 || w.len() == 0 {
            prev
        } else if w.len() == 1 {
            (prev.0, true)
        } else {
            (prev.0.push((w[0], w[1])), false)
        }
    }
}

/// The bytes of `buf` in the range `span`.
pub open spec fn span_text(buf: Seq<u8>, span: (usize, usize)) -> Seq<u8> {
    buf.subrange(span.0 as int, span.1 as int)
}

/// The texts of a list of ranges.
pub open spec fn span_texts(buf: Seq<u8>, spans: Seq<(usize, usize)>) -> Seq<Seq<u8>> {
    spans.map_values(|sp: (usize, usize)| span_text(buf, sp))
}

/// Every range lies within `lo..hi` and is not empty.
pub open spec fn spans_within(spans: Seq<(usize, usize)>, lo: int, hi: int) -> bool {
    forall|k: int| 0 <= k < spans.len() ==> lo <= (#[trigger] spans[k]).0 < spans[k].1 <= hi
}

/// Why the input holds no usable data, or where its structure is wrong.
#[derive(Copy, Clone, Debug, PartialEq, Eq, Structural)]
pub enum InputError {
    /// A column holds no values at all.
    NoValues,
    /// A table has no non-blank line.
    NoRows,
    /// A table line has a single field where `x` and `value` are needed.
    OneColumn,
}

fn is_space_byte(c: u8) -> (r: bool)
    ensures
        r == is_space(c),
{
    c == 0x20u8 || c == 0x09u8 || c == 0x0Au8 || c == 0x0Cu8 || c == 0x0Du8
}

/// The ranges of the whitespace-separated words of `buf[lo..hi]`.
pub fn fields_in(buf: &[u8], lo: usize, hi: usize) -> (spans: Vec<(usize, usize)>)
    requires
        lo <= hi <= buf.len(),
    ensures
        spans_within(spans@, lo as int, hi as int),
        span_texts(buf@, spans@) == words(buf@.subrange(lo as int, hi as int)),
{
    let mut spans: Vec<(usize, usize)> = Vec::new();
    let mut open: Option<usize> = None;
    let mut j: usize = lo;
    assert(buf@.subrange(lo as int, lo as int) =~= Seq::<u8>::empty());
    assert(span_texts(buf@, spans@) =~= Seq::<Seq<u8>>::empty());
    while j < hi
        invariant
            lo <= j <= hi <= buf.len(),
            spans_within(spans@, lo as int, j as int),
            match open {
                None => {
                    &&& j == lo || is_space(buf@[j - 1])
                    &&& span_texts(buf@, spans@) == words(buf@.subrange(lo as int, j as int))
                },
                Some(st) => {
                    &&& lo <= st < j
                    &&& !is_space(buf@[j - 1])
                    &&& span_texts(buf@, spans@).push(buf@.subrange(st as int, j as int)) == words(
                        buf@.subrange(lo as int, j as int),
                    )
                },
            },
        decreases hi - j,
    {
        let c = buf[j];
        let ghost cur = buf@.subrange(lo as int, j as int);
        let ghost next = buf@.subrange(lo as int, j as int + 1);
        proof {
            assert(next.drop_last() =~= cur);
            assert(next.last() == c);
            if j > lo {
                assert(next[next.len() - 2] == buf@[j - 1]);
            }
        }
        if is_space_byte(c) {
            match open {
                None => {},
                Some(st) => {
                    let ghost before = spans@;
                    spans.push((st, j));
                    proof {
                        assert(span_texts(buf@, spans@) =~= span_texts(buf@, before).push(
                            buf@.subrange(st as int, j as int),
                        ));
                    }
                    open = None;
                },
            }
        } else {
            match open {
                None => {
                    open = Some(j);
                    proof {
                        assert(buf@.subrange(j as int, j as int + 1) =~= seq![c]);
                    }
                },
                Some(st) => {
                    proof {
                        let w = words(cur);
                        assert(w =~= span_texts(buf@, spans@).push(buf@.subrange(st as int, j as int)));
                        assert(buf@.subrange(st as int, j as int + 1) =~= buf@.subrange(
                            st as int,
                            j as int,
                        ).push(c));
                        assert(span_texts(buf@, spans@).push(buf@.subrange(st as int, j as int + 1))
                            =~= w.update(w.len() - 1, w.last().push(c)));
                    }
                },
            }
        }
        j = j + 1;
    }
    match open {
        None => {},
        Some(st) => {
            let ghost before = spans@;
            spans.push((st, hi));
            proof {
                assert(span_texts(buf@, spans@) =~= span_texts(buf@, before).push(
                    buf@.subrange(st as int, hi as int),
                ));
            }
        },
    }
    spans
}

/// The ranges of the values of a single whitespace-separated column; `Err`
/// with `NoValues` exactly when the input holds no value at all.
pub fn column_fields(buf: &[u8]) -> (r: Result<Vec<(usize, usize)>, InputError>)
    ensures
        match r {
            Ok(spans) => {
                &&& spans.len() > 0
                &&& spans_within(spans@, 0, buf.len() as int)
                &&& span_texts(buf@, spans@) == words(buf@)
            },
            Err(e) => e == InputError::NoValues && words(buf@).len() == 0,
        },
{
    let spans = fields_in(buf, 0, buf.len());
    assert(buf@.subrange(0, buf.len() as int) =~= buf@);
    if spans.len() == 0 {
        Err(InputError::NoValues)
    } else {
        Ok(spans)
    }
}

/// The fields of a table: for each row, the ranges of `x` and of `value`.
pub struct TableFields {
    /// The rows read, in order.
    pub rows: Vec<((usize, usize), (usize, usize))>,
    /// Why reading ended without data, or stopped early: `OneColumn` at the
    /// first line with a single field, `NoRows` when no line has a field.
    pub stop: Option<InputError>,
}

/// The texts of the rows of a table.
pub open spec fn row_texts(buf: Seq<u8>, rows: Seq<((usize, usize), (usize, usize))>) -> Seq<
    (Seq<u8>, Seq<u8>),
> {
    rows.map_values(|r: ((usize, usize), (usize, usize))| (span_text(buf, r.0), span_text(buf, r.1)))
}

/// Every range of every row lies within `0..n` and is not empty.
pub open spec fn rows_within(rows: Seq<((usize, usize), (usize, usize))>, n: int) -> bool {
    forall|k: int|
        0 <= k < rows.len() ==> {
            &&& (#[trigger] rows[k]).0.0 < rows[k].0.1 <= n
            &&& rows[k].1.0 < rows[k].1.1 <= n
        }
}

/// What reading a table ends with, given its rows and whether it stopped at a
/// single-field line.
pub open spec fn table_stop(rows: Seq<(Seq<u8>, Seq<u8>)>, stopped: bool) -> Option<InputError> {
    if stopped {
        Some(InputError::OneColumn)
    } else if rows.len() == 0 {
        Some(InputError::NoRows)
    } else {
        None
    }
}

/// The structure of a two-column table: each non-blank line yields `(x,
/// value)` from its first two whitespace-separated fields; the first line
/// with a single field stops the reading (`OneColumn`), and a table without a
/// non-blank line has `NoRows`.
///
/// A carriage return before a line feed is whitespace, so it ends the last
/// field of its line like any other separator.
pub fn table_fields(buf: &[u8]) -> (r: TableFields)
    ensures
        rows_within(r.rows@, buf.len() as int),
        row_texts(buf@, r.rows@) == table_rows(lines(buf@)).0,
        r.stop == table_stop(table_rows(lines(buf@)).0, table_rows(lines(buf@)).1),
{
    let n = buf.len();
    let mut rows: Vec<((usize, usize), (usize, usize))> = Vec::new();
    let mut stopped = false;
    let mut ls: usize = 0;
    let ghost mut done: Seq<Seq<u8>> = Seq::empty();
    let mut i: usize = 0;
    assert(buf@.take(0) =~= Seq::<u8>::empty());
    assert(buf@.subrange(0, 0) =~= Seq::<u8>::empty());
    assert(lines(buf@.take(0)) =~= done.push(buf@.subrange(0, 0)));
    assert(row_texts(buf@, rows@) =~= Seq::<(Seq<u8>, Seq<u8>)>::empty());
    while i < n
        invariant
            ls <= i <= n,
            n == buf.len(),
            lines(buf@.take(i as int)) == done.push(buf@.subrange(ls as int, i as int)),
            rows_within(rows@, n as int),
            row_texts(buf@, rows@) == table_rows(done).0,
            stopped == table_rows(done).1,
        decreases n - i,
    {
        let c = buf[i];
        proof {
            let t = buf@.take(i as int + 1);
            assert(t.drop_last() =~= buf@.take(i as int));
            assert(t.last() == c);
        }
        if c == NEWLINE {
            let ghost line = buf@.subrange(ls as int, i as int);
            if !stopped {
                let fields = fields_in(buf, ls, i);
                let ghost before = rows@;
                if fields.len() == 1 {
                    stopped = true;
                } else if fields.len() >= 2 {
                    rows.push((fields[0], fields[1]));
                    proof {
                        assert(row_texts(buf@, rows@) =~= row_texts(buf@, before).push(
                            (span_text(buf@, fields@[0]), span_text(buf@, fields@[1])),
                        ));
                    }
                }
                proof {
                    assert(done.push(line).drop_last() =~= done);
                }
            } else {
                proof {
                    assert(done.push(line).drop_last() =~= done);
                }
            }
            proof {
                done = done.push(line);
                assert(buf@.subrange(i as int + 1, i as int + 1) =~= Seq::<u8>::empty());
                assert(lines(buf@.take(i as int + 1)) =~= done.push(
                    buf@.subrange(i as int + 1, i as int + 1),
                ));
            }
            ls = i + 1;
        } else {
            proof {
                let l = lines(buf@.take(i as int));
                assert(buf@.subrange(ls as int, i as int + 1) =~= buf@.subrange(
                    ls as int,
                    i as int,
                ).push(c));
                assert(lines(buf@.take(i as int + 1)) =~= done.push(
                    buf@.subrange(ls as int, i as int + 1),
                ));
            }
        }
        i = i + 1;
    }
    let ghost line = buf@.subrange(ls as int, n as int);
    if !stopped {
        let fields = fields_in(buf, ls, n);
        let ghost before = rows@;
        if fields.len() == 1 {
            stopped = true;
        } else if fields.len() >= 2 {
            rows.push((fields[0], fields[1]));
            proof {
                assert(row_texts(buf@, rows@) =~= row_texts(buf@, before).push(
                    (span_text(buf@, fields@[0]), span_text(buf@, fields@[1])),
                ));
            }
        }
    }
    proof {
        assert(done.push(line).drop_last() =~= done);
        done = done.push(line);
        assert(buf@.take(n as int) =~= buf@);
    }
    let stop = if stopped {
        Some(InputError::OneColumn)
    } else if rows.len() == 0 {
        Some(InputError::NoRows)
    } else {
        None
    };
    proof {
        assert(row_texts(buf@, rows@).len() == rows@.len());
    }
    TableFields { rows, stop }
}

/// A line yields no row exactly when it is blank: every byte of it is
/// whitespace.
pub proof fn lemma_no_words_iff_blank(s: Seq<u8>)
    ensures
        (words(s).len() == 0) <==> (forall|k: int| 0 <= k < s.len() ==> is_space(#[trigger] s[k])),
    decreases s.len(),
{
    if s.len() > 0 {
        let p = s.drop_last();
        lemma_no_words_iff_blank(p);
        lemma_words_len_monotone(p, s.last());
        if forall|k: int| 0 <= k < s.len() ==> is_space(#[trigger] s[k]) {
            assert forall|k: int| 0 <= k < p.len() implies is_space(#[trigger] p[k]) by {
                assert(s[k] == p[k]);
            }
        }
        if words(s).len() == 0 {
            assert forall|k: int| 0 <= k < s.len() implies is_space(#[trigger] s[k]) by {
                if k < p.len() {
                    assert(p[k] == s[k]);
                }
            }
        }
    }
}

proof fn lemma_words_len_monotone(p: Seq<u8>, c: u8)
    ensures
        words(p.push(c)).len() >= words(p).len(),
        !is_space(c) ==> words(p.push(c)).len() > 0,
    decreases p.len(),
{
    assert(p.push(c).drop_last() =~= p);
    if p.len() > 0 {
        lemma_words_len_monotone(p.drop_last(), p.last());
        assert(p.drop_last().push(p.last()) =~= p);
    }
}

/// The bytes that separate fields are exactly the ASCII whitespace bytes:
/// space, tab, line feed, form feed and carriage return. Every other byte,
/// letters, digits, signs and points included, belongs to a field.
pub proof fn lemma_separators_are_ascii_whitespace(c: u8)
    ensures
        is_space(c) <==> (c == 32u8 || c == 9u8 || c == 10u8 || c == 12u8 || c == 13u8),
        (0x21u8 <= c <= 0x7Eu8) ==> !is_space(c),
{
}

/// Text without an ASCII whitespace byte is a single word: itself.
pub proof fn lemma_unbroken_text_is_one_word(s: Seq<u8>)
    requires
        s.len() > 0,
        forall|k: int|
            0 <= k < s.len() ==> !(#[trigger] s[k] == 32u8 || s[k] == 9u8 || s[k] == 10u8 || s[k]
                == 12u8 || s[k] == 13u8),
    ensures
        words(s) == seq![s],
    decreases s.len(),
{
    let p = s.drop_last();
    assert(!is_space(s.last()));
    if p.len() == 0 {
        assert(words(p) =~= Seq::<Seq<u8>>::empty());
        assert(seq![s.last()] =~= s);
    } else {
        assert forall|k: int| 0 <= k < p.len() implies !(#[trigger] p[k] == 32u8 || p[k] == 9u8
            || p[k] == 10u8 || p[k] == 12u8 || p[k] == 13u8) by {
            assert(p[k] == s[k]);
        }
        lemma_unbroken_text_is_one_word(p);
        assert(!is_space(s[s.len() - 2]));
        assert(p.push(s.last()) =~= s);
        assert(words(s) =~= seq![s]);
    }
}

/// A column whose text has no ASCII whitespace byte holds exactly one value,
/// spanning the whole text.
pub proof fn lemma_unbroken_column_is_one_value(buf: Seq<u8>, spans: Seq<(usize, usize)>)
    requires
        buf.len() > 0,
        forall|k: int|
            0 <= k < buf.len() ==> !(#[trigger] buf[k] == 32u8 || buf[k] == 9u8 || buf[k] == 10u8
                || buf[k] == 12u8 || buf[k] == 13u8),
        spans_within(spans, 0, buf.len() as int),
        span_texts(buf, spans) == words(buf),
    ensures
        spans.len() == 1,
        spans[0].0 == 0,
        spans[0].1 == buf.len(),
{
    lemma_unbroken_text_is_one_word(buf);
    assert(span_texts(buf, spans).len() == 1);
    assert(span_texts(buf, spans)[0] == buf);
    assert(span_text(buf, spans[0]).len() == buf.len());
}

/// Two words joined by one ASCII whitespace byte are two words.
pub proof fn lemma_separator_splits(a: Seq<u8>, c: u8, b: Seq<u8>)
    requires
        a.len() > 0,
        b.len() > 0,
        c == 32u8 || c == 9u8 || c == 10u8 || c == 12u8 || c == 13u8,
        forall|k: int|
            0 <= k < a.len() ==> !(#[trigger] a[k] == 32u8 || a[k] == 9u8 || a[k] == 10u8 || a[k]
                == 12u8 || a[k] == 13u8),
        forall|k: int|
            0 <= k < b.len() ==> !(#[trigger] b[k] == 32u8 || b[k] == 9u8 || b[k] == 10u8 || b[k]
                == 12u8 || b[k] == 13u8),
    ensures
        words(a.push(c) + b) == seq![a, b],
    decreases b.len(),
{
    lemma_unbroken_text_is_one_word(a);
    let ac = a.push(c);
    assert(ac.drop_last() =~= a);
    assert(words(ac) == seq![a]);
    lemma_words_append_word(ac, b);
}

/// Appending a whitespace-free word after a whitespace byte adds that word.
proof fn lemma_words_append_word(p: Seq<u8>, b: Seq<u8>)
    requires
        p.len() > 0,
        is_space(p.last()),
        b.len() > 0,
        forall|k: int|
            0 <= k < b.len() ==> !(#[trigger] b[k] == 32u8 || b[k] == 9u8 || b[k] == 10u8 || b[k]
                == 12u8 || b[k] == 13u8),
    ensures
        words(p + b) == words(p).push(b),
    decreases b.len(),
{
    let s = p + b;
    assert(!is_space(b.last()));
    if b.len() == 1 {
        assert(s.drop_last() =~= p);
        assert(s.last() == b[0]);
        assert(s[s.len() - 2] == p.last());
        assert(seq![b[0]] =~= b);
    } else {
        let b0 = b.drop_last();
        assert forall|k: int| 0 <= k < b0.len() implies !(#[trigger] b0[k] == 32u8 || b0[k] == 9u8
            || b0[k] == 10u8 || b0[k] == 12u8 || b0[k] == 13u8) by {
            assert(b0[k] == b[k]);
        }
        lemma_words_append_word(p, b0);
        assert(s.drop_last() =~= p + b0);
        assert(s.last() == b.last());
        assert(s[s.len() - 2] == b0.last());
        assert(!is_space(b0.last()));
        let w = words(p + b0);
        assert(w == words(p).push(b0));
        assert(b0.push(b.last()) =~= b);
        assert(w.last() == b0);
        assert(w.update(w.len() - 1, w.last().push(b.last())) =~= words(p).push(b));
    }
}

} // verus!

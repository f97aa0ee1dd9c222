//! The record scanner: it walks a buffer of `key;value` lines and hands out
//! each record as two spans, one for the key and one for the value.

use vstd::prelude::*;
use crate::ascii::{FIELD_SEPARATOR, LINE_SEPARATOR};
use crate::bits::{above_lowest, bit, either, lemma_no_bits, lowest, with_bit};
use crate::error::AggregateError;

verus! {

/// A stretch of the buffer: the bytes from `start` up to, not including,
/// `end`.
#[derive(Clone, Copy, Debug, PartialEq, Eq, Structural)]
pub struct Span {
    pub start: usize,
    pub end: usize,
}

/// Where the key and the value of one record lie in the buffer.
#[derive(Clone, Copy, Debug, PartialEq, Eq, Structural)]
pub struct RecordSpans {
    pub key: Span,
    pub value: Span,
}

impl Span {
    /// The bytes of `buf` that the span covers.
    pub open spec fn of(self, buf: Seq<u8>) -> Seq<u8> {
        buf.subrange(self.start as int, self.end as int)
    }
}

/// Whether byte `b` ends a stretch: a line separator always does, a field
/// separator where `in_key` says that a key is being read.
pub open spec fn stops(b: u8, in_key: bool) -> bool {
    b == LINE_SEPARATOR || (in_key && b == FIELD_SEPARATOR)
}

/// The number of bytes from `from` on that come before the next stop, or
/// before the end of `buf` where there is no stop.
pub open spec fn stretch(buf: Seq<u8>, from: int, in_key: bool) -> nat
    decreases buf.len() - from,
{
    if 0 <= from < buf.len() && !stops(buf[from], in_key) {
        1 + stretch(buf, from + 1, in_key)
    } else {
        0
    }
}

/// Where the key of the record that starts at `pos` ends: at the first
/// field or line separator from `pos` on, or at the end of `buf`.
pub open spec fn key_end_at(buf: Seq<u8>, pos: int) -> int {
    pos + stretch(buf, pos, true)
}

/// Where the value of the record that starts at `pos` ends: at the first
/// line separator after the key's end, or at the end of `buf`.
pub open spec fn value_end_at(buf: Seq<u8>, pos: int) -> int {
    key_end_at(buf, pos) + 1 + stretch(buf, key_end_at(buf, pos) + 1, false)
}

/// The key of the record that starts at `pos`.
pub open spec fn key_at(buf: Seq<u8>, pos: int) -> Seq<u8> {
    buf.subrange(pos, key_end_at(buf, pos))
}

/// The text of the value of the record that starts at `pos`.
pub open spec fn value_text_at(buf: Seq<u8>, pos: int) -> Seq<u8> {
    buf.subrange(key_end_at(buf, pos) + 1, value_end_at(buf, pos))
}

/// The record that starts at `pos`, a place inside `buf`: its key runs up
/// to the first field separator, its value from there up to the next line
/// separator. The record is refused where the input ends before the record
/// does, where its line ends before a field separator came, and where its
/// key is empty.
pub open spec fn record_at(buf: Seq<u8>, pos: int) -> Result<RecordSpans, AggregateError> {
    let key_end = key_end_at(buf, pos);
    let value_end = value_end_at(buf, pos);
    if key_end >= buf.len() {
        Err(AggregateError::TruncatedInput { offset: pos as usize })
    } else if buf[key_end] == LINE_SEPARATOR {
        Err(AggregateError::Parse { offset: key_end as usize })
    } else if key_end == pos {
        Err(AggregateError::EmptyKey { offset: pos as usize })
    } else if value_end >= buf.len() {
        Err(AggregateError::TruncatedInput { offset: pos as usize })
    } else {
        Ok(
            RecordSpans {
                key: Span { start: pos as usize, end: key_end as usize },
                value: Span { start: (key_end + 1) as usize, end: value_end as usize },
            },
        )
    }
}

/// A stretch ends at a stop or at the end of the buffer, and holds no stop.
pub proof fn lemma_stretch(buf: Seq<u8>, from: int, in_key: bool)
    requires
        0 <= from <= buf.len(),
    ensures
        from + stretch(buf, from, in_key) <= buf.len(),
        from + stretch(buf, from, in_key) < buf.len() ==> stops(
            buf[from + stretch(buf, from, in_key)],
            in_key,
        ),
        forall|i: int|
            from <= i < from + stretch(buf, from, in_key) ==> !stops(#[trigger] buf[i], in_key),
    decreases buf.len() - from,
{
    if from < buf.len() && !stops(buf[from], in_key) {
        lemma_stretch(buf, from + 1, in_key);
    }
}

/// A stretch is known by its end: the first stop at or after `from`.
pub proof fn lemma_stretch_ends(buf: Seq<u8>, from: int, end: int, in_key: bool)
    requires
        0 <= from <= end <= buf.len(),
        forall|i: int| from <= i < end ==> !stops(#[trigger] buf[i], in_key),
        end < buf.len() ==> stops(buf[end], in_key),
    ensures
        from + stretch(buf, from, in_key) == end,
    decreases end - from,
{
    if from < end {
        assert(!stops(buf[from], in_key));
        lemma_stretch_ends(buf, from + 1, end, in_key);
    }
}

/// Where the spans of a record lie: the key starts the record and is not
/// empty, a field separator parts it from the value, and a line separator
/// follows the value.
pub proof fn lemma_record_at(buf: Seq<u8>, pos: int)
    requires
        0 <= pos < buf.len() <= usize::MAX,
    ensures
        record_at(buf, pos) matches Ok(spans) ==> {
            &&& spans.key.start == pos
            &&& spans.key.end == key_end_at(buf, pos)
            &&& spans.value.start == spans.key.end + 1
            &&& spans.value.end == value_end_at(buf, pos)
            &&& spans.key.start < spans.key.end < spans.value.start <= spans.value.end < buf.len()
            &&& spans.key.of(buf) == key_at(buf, pos)
            &&& spans.value.of(buf) == value_text_at(buf, pos)
            &&& buf[spans.key.end as int] == FIELD_SEPARATOR
            &&& buf[spans.value.end as int] == LINE_SEPARATOR
        },
{
    lemma_stretch(buf, pos, true);
    if key_end_at(buf, pos) < buf.len() {
        lemma_stretch(buf, key_end_at(buf, pos) + 1, false);
    }
}

/// The number of bytes that are looked at together.
pub const WINDOW: usize = 32;

/// A stretch of `WINDOW` bytes of the buffer and where its separators are.
/// Bit `j` of `fields` is set where the byte at `base + j` is a field
/// separator, bit `j` of `lines` where it is a line separator; bits of
/// bytes that the scanner has passed are clear. With `width` 0 no bytes
/// are held.
#[derive(Clone, Copy)]
struct Window {
    base: usize,
    width: usize,
    fields: u32,
    lines: u32,
}

/// The window tells of each byte from `from` up to its end whether it is a
/// separator, and of which kind.
spec fn window_ok(buf: Seq<u8>, w: Window, from: int) -> bool {
    &&& w.width == 0 || w.width == WINDOW
    &&& w.base <= from <= w.base + w.width <= buf.len()
    &&& forall|j: int|
        #![trigger bit(w.fields, j)]
        bit(w.fields, j) <==> 0 <= j < w.width && from <= w.base + j && buf[w.base + j]
            == FIELD_SEPARATOR
    &&& forall|j: int|
        #![trigger bit(w.lines, j)]
        bit(w.lines, j) <==> 0 <= j < w.width && from <= w.base + j && buf[w.base + j]
            == LINE_SEPARATOR
}

/// Looks at the `WINDOW` bytes from `base` on and notes where their
/// separators are.
fn load(buf: &[u8], base: usize) -> (w: Window)
    requires
        base + WINDOW <= buf@.len(),
    ensures
        w.base == base,
        w.width == WINDOW,
        window_ok(buf@, w, base as int),
{
    let mut fields: u32 = 0;
    let mut lines: u32 = 0;
    let mut j: u32 = 0;
    let len = buf.len();
    proof {
        lemma_no_bits();
    }
    while j < 32
        invariant
            j <= 32,
            base + WINDOW <= buf@.len() == len,
            forall|k: int|
                #![trigger bit(fields, k)]
                bit(fields, k) <==> 0 <= k < j && buf@[base + k] == FIELD_SEPARATOR,
            forall|k: int|
                #![trigger bit(lines, k)]
                bit(lines, k) <==> 0 <= k < j && buf@[base + k] == LINE_SEPARATOR,
        decreases 32 - j,
    {
        let b = buf[base + j as usize];
        if b == FIELD_SEPARATOR {
            fields = with_bit(fields, j);
        } else if b == LINE_SEPARATOR {
            lines = with_bit(lines, j);
        }
        j = j + 1;
    }
    Window { base, width: WINDOW, fields, lines }
}

/// The first stop at or after `from`, or the length of the buffer where
/// there is none, and the window that goes on behind the stop. Whole
/// windows are searched by their masks: the lowest set bit is the next
/// separator, and it is cleared when the search has passed it. What is
/// left at the end of the buffer, less than one window, is searched byte
/// by byte.
fn next_stop(buf: &[u8], window: Window, from: usize, in_key: bool) -> (r: (usize, Window))
    requires
        window_ok(buf@, window, from as int),
    ensures
        r.0 == from + stretch(buf@, from as int, in_key),
        r.0 <= buf@.len(),
        r.0 < buf@.len() ==> window_ok(buf@, r.1, r.0 + 1),
{
    let mut w = window;
    let len = buf.len();
    let ghost mut passed: int = from as int;
    loop
        invariant
            buf@.len() == len,
            from <= passed,
            window_ok(buf@, w, passed),
            forall|i: int| from <= i < passed ==> !stops(#[trigger] buf@[i], in_key),
        decreases buf@.len() - (w.base + w.width),
    {
        let wanted = if in_key {
            either(w.fields, w.lines)
        } else {
            w.lines
        };
        proof {
            lemma_no_bits();
        }
        if wanted != 0 {
            let t = lowest(wanted);
            let pos = w.base + t as usize;
            let after = Window {
                base: w.base,
                width: w.width,
                fields: above_lowest(w.fields, wanted),
                lines: above_lowest(w.lines, wanted),
            };
            proof {
                assert(bit(w.fields, t as int) || bit(w.lines, t as int));
                assert forall|i: int| passed <= i < pos implies !stops(
                    #[trigger] buf@[i],
                    in_key,
                ) by {
                    let j = i - w.base;
                    assert(!bit(wanted, j));
                    assert(!bit(w.lines, j));
                    if in_key {
                        assert(!bit(w.fields, j));
                    }
                }
                lemma_stretch_ends(buf@, from as int, pos as int, in_key);
                assert(window_ok(buf@, after, pos + 1)) by {
                    assert forall|j: int|
                        #![trigger bit(after.fields, j)]
                        bit(after.fields, j) <==> 0 <= j < after.width && pos + 1 <= after.base
                            + j && buf@[after.base + j] == FIELD_SEPARATOR by {
                        assert(bit(after.fields, j) <==> bit(w.fields, j) && j > t);
                    }
                    assert forall|j: int|
                        #![trigger bit(after.lines, j)]
                        bit(after.lines, j) <==> 0 <= j < after.width && pos + 1 <= after.base
                            + j && buf@[after.base + j] == LINE_SEPARATOR by {
                        assert(bit(after.lines, j) <==> bit(w.lines, j) && j > t);
                    }
                }
            }
            return (pos, after);
        }
        proof {
            assert forall|i: int| passed <= i < w.base + w.width implies !stops(
                #[trigger] buf@[i],
                in_key,
            ) by {
                let j = i - w.base;
                assert(!bit(w.lines, j));
                if in_key {
                    assert(!bit(wanted, j));
                    assert(!bit(w.fields, j));
                }
            }
        }
        let next_base = w.base + w.width;
        if len - next_base >= WINDOW {
            w = load(buf, next_base);
            proof {
                passed = next_base as int;
            }
        } else {
            let mut i = next_base;
            while i < len && buf[i] != LINE_SEPARATOR && !(in_key && buf[i] == FIELD_SEPARATOR)
                invariant
                    buf@.len() == len,
                    from <= next_base <= i <= buf@.len(),
                    forall|k: int| from <= k < i ==> !stops(#[trigger] buf@[k], in_key),
                decreases buf@.len() - i,
            {
                i = i + 1;
            }
            proof {
                lemma_stretch_ends(buf@, from as int, i as int, in_key);
                lemma_no_bits();
            }
            let rest = if i < len {
                i + 1
            } else {
                i
            };
            return (i, Window { base: rest, width: 0, fields: 0, lines: 0 });
        }
    }
}

/// A scanner over one buffer. It hands out the records in their order,
/// once.
pub struct RecordScanner<'a> {
    buf: &'a [u8],
    cursor: usize,
    window: Window,
}

impl<'a> RecordScanner<'a> {
    /// The bytes that are scanned.
    pub closed spec fn buffer(&self) -> Seq<u8> {
        self.buf@
    }

    /// Where the next record starts.
    pub closed spec fn position(&self) -> nat {
        self.cursor as nat
    }

    /// The position lies inside the buffer or at its end, and the window
    /// tells the truth of the bytes from there on.
    pub closed spec fn wf(&self) -> bool {
        window_ok(self.buf@, self.window, self.cursor as int)
    }

    /// A scanner at the start of `buf`.
    pub fn new(buf: &'a [u8]) -> (s: Self)
        ensures
            s.wf(),
            s.buffer() == buf@,
            s.position() == 0,
    {
        proof {
            lemma_no_bits();
        }
        RecordScanner { buf, cursor: 0, window: Window { base: 0, width: 0, fields: 0, lines: 0 } }
    }

    /// The next record, or `None` at the end of the buffer. The scanner
    /// looks for a field separator first, which ends the key, and then for
    /// a line separator, which ends the value and the record. After an
    /// error the scanner stays where it is.
    pub fn next_record(&mut self) -> (r: Result<Option<RecordSpans>, AggregateError>)
        requires
            old(self).wf(),
        ensures
            final(self).wf(),
            final(self).buffer() == old(self).buffer(),
            r == if old(self).position() >= old(self).buffer().len() {
                Ok::<Option<RecordSpans>, AggregateError>(None)
            } else {
                match record_at(old(self).buffer(), old(self).position() as int) {
                    Ok(spans) => Ok(Some(spans)),
                    Err(e) => Err(e),
                }
            },
            final(self).position() == match r {
                Ok(Some(spans)) => spans.value.end + 1,
                _ => old(self).position() as int,
            },
    {
        let pos = self.cursor;
        if pos >= self.buf.len() {
            return Ok(None);
        }
        let (key_end, behind_key) = next_stop(self.buf, self.window, pos, true);
        if key_end >= self.buf.len() {
            return Err(AggregateError::TruncatedInput { offset: pos });
        }
        if self.buf[key_end] == LINE_SEPARATOR {
            return Err(AggregateError::Parse { offset: key_end });
        }
        if key_end == pos {
            return Err(AggregateError::EmptyKey { offset: pos });
        }
        let (value_end, behind_value) = next_stop(self.buf, behind_key, key_end + 1, false);
        if value_end >= self.buf.len() {
            return Err(AggregateError::TruncatedInput { offset: pos });
        }
        self.cursor = value_end + 1;
        self.window = behind_value;
        Ok(
            Some(
                RecordSpans {
                    key: Span { start: pos, end: key_end },
                    value: Span { start: key_end + 1, end: value_end },
                },
            ),
        )
    }
}

} // verus!

//! The source-position model: an append-only registry of source texts, byte
//! positions and spans within them, and line/column resolution.
//!
//! Positions are byte offsets into the UTF-8 encoding of a text. All
//! contracts speak of that encoding, `Source::bytes`.

use std::ops::Range;
use vstd::prelude::*;
use vstd::string::*;
use vstd::utf8::*;

verus! {

/// The byte value of the line terminator.
pub const NEWLINE: u8 = 0x0A;

/// An identifier for a `Source`. Use this as a handle to retrieve the `Source`
/// from the `SourceMap` that issued it.
#[derive(Debug, Clone, Copy, PartialEq, Eq, Structural)]
pub struct SourceId(usize);

impl SourceId {
    /// The position of the source in its map, in insertion order.
    pub closed spec fn index(&self) -> nat {
        self.0 as nat
    }
}

/// A position of a single character within a `Source`.
///
/// The byte offset here should always be aligned to a utf8 codepoint.
#[derive(Debug, Clone, Copy, PartialEq, Eq, Structural)]
pub struct SourcePos {
    /// The id of the `Source` that this position is within.
    src_id: SourceId,
    /// The byte offset into the `Source`.
    byte: usize,
}

impl SourcePos {
    /// The position at offset `byte` of the source `src_id`.
    pub closed spec fn at(src_id: SourceId, byte: usize) -> SourcePos {
        SourcePos { src_id, byte }
    }

    pub closed spec fn spec_src_id(&self) -> SourceId {
        self.src_id
    }

    pub closed spec fn spec_byte(&self) -> usize {
        self.byte
    }

    /// The position at offset `byte` of the source `src_id`.
    pub fn new(src_id: SourceId, byte: usize) -> (pos: Self)
        ensures
            pos == SourcePos::at(src_id, byte),
            pos.src_id() == src_id,
            pos.byte() == byte,
    {
        Self { src_id, byte }
    }

    /// Get the id of the `Source` that this position is within.
    #[verifier::when_used_as_spec(spec_src_id)]
    pub fn src_id(&self) -> (id: SourceId)
        ensures
            id == self.spec_src_id(),
    {
        self.src_id
    }

    /// Get the byte offset into the `Source`.
    #[verifier::when_used_as_spec(spec_byte)]
    pub fn byte(&self) -> (b: usize)
        ensures
            b == self.spec_byte(),
    {
        self.byte
    }
}

/// A position is determined by its source and its offset.
pub broadcast proof fn lemma_pos_at(src_id: SourceId, byte: usize)
    ensures
        (#[trigger] SourcePos::at(src_id, byte)).src_id() == src_id,
        SourcePos::at(src_id, byte).byte() == byte,
{
}

/// Every position is `SourcePos::at` of its two parts.
pub proof fn lemma_pos_eq(pos: SourcePos)
    ensures
        pos == SourcePos::at(pos.src_id(), pos.byte()),
{
}

/// A range of characters within a `Source`: start inclusive, end exclusive.
#[derive(Debug, Clone, Copy, PartialEq, Eq, Structural)]
pub struct Span {
    /// The inclusive start position of the range.
    start: SourcePos,
    /// The exclusive end position of the range.
    end: SourcePos,
}

impl Span {
    /// Both ends lie in one source, and the start does not follow the end.
    #[verifier::type_invariant]
    pub closed spec fn wf(&self) -> bool {
        &&& self.start.src_id == self.end.src_id
        &&& self.start.byte <= self.end.byte
    }

    /// The span between two positions.
    pub closed spec fn between(start: SourcePos, end: SourcePos) -> Span {
        Span { start, end }
    }

    /// The span of the bytes `start..end` of the source `src_id`.
    pub open spec fn at(src_id: SourceId, start: usize, end: usize) -> Span {
        Span::between(SourcePos::at(src_id, start), SourcePos::at(src_id, end))
    }

    pub closed spec fn spec_src_id(&self) -> SourceId {
        self.start.src_id
    }

    pub closed spec fn spec_start(&self) -> SourcePos {
        self.start
    }

    pub closed spec fn spec_end(&self) -> SourcePos {
        self.end
    }

    /// The minimal span that covers both `self` and `other`.
    pub open spec fn spec_union(self, other: Span) -> Span {
        Span::at(
            self.src_id(),
            if self.start().byte() <= other.start().byte() {
                self.start().byte()
            } else {
                other.start().byte()
            },
            if self.end().byte() >= other.end().byte() {
                self.end().byte()
            } else {
                other.end().byte()
            },
        )
    }

    /// Create a new `Span` from the inclusive start and exclusive end position.
    pub fn new(start: SourcePos, end: SourcePos) -> (span: Self)
        requires
            start.src_id() == end.src_id(),
            start.byte() <= end.byte(),
        ensures
            span == Span::between(start, end),
            span.wf(),
            span.src_id() == start.src_id(),
            span.start() == start,
            span.end() == end,
    {
        Self { start, end }
    }

    /// The id of the `Source` this `Span` is within.
    #[verifier::when_used_as_spec(spec_src_id)]
    pub fn src_id(&self) -> (id: SourceId)
        ensures
            id == self.spec_src_id(),
    {
        self.start.src_id()
    }

    /// Get the inclusive start position of the range.
    #[verifier::when_used_as_spec(spec_start)]
    pub fn start(&self) -> (pos: SourcePos)
        ensures
            pos == self.spec_start(),
    {
        self.start
    }

    /// Get the exclusive end position of the range.
    #[verifier::when_used_as_spec(spec_end)]
    pub fn end(&self) -> (pos: SourcePos)
        ensures
            pos == self.spec_end(),
    {
        self.end
    }

    /// The range of bytes within the `Source` the range includes.
    pub fn byte_range(&self) -> (range: Range<usize>)
        ensures
            range.start == self.start().byte(),
            range.end == self.end().byte(),
            range.start <= range.end,
            self.wf(),
    {
        proof {
            use_type_invariant(self);
        }
        self.start().byte()..self.end().byte()
    }

    /// The minimal span covering both spans, which must lie in one source.
    pub fn union(a: Span, b: Span) -> (span: Span)
        requires
            a.src_id() == b.src_id(),
        ensures
            span == a.spec_union(b),
            span.wf(),
            span.src_id() == a.src_id(),
            span.start().byte() == if a.start().byte() <= b.start().byte() {
                a.start().byte()
            } else {
                b.start().byte()
            },
            span.end().byte() == if a.end().byte() >= b.end().byte() {
                a.end().byte()
            } else {
                b.end().byte()
            },
    {
        proof {
            use_type_invariant(a);
            use_type_invariant(b);
        }
        let start = if a.start.byte <= b.start.byte {
            a.start
        } else {
            b.start
        };
        let end = if a.end.byte >= b.end.byte {
            a.end
        } else {
            b.end
        };
        Span { start, end }
    }
}

/// The parts of a span built from two positions.
pub broadcast proof fn lemma_span_between(start: SourcePos, end: SourcePos)
    ensures
        (#[trigger] Span::between(start, end)).start() == start,
        Span::between(start, end).end() == end,
        Span::between(start, end).src_id() == start.src_id(),
        Span::between(start, end).wf() <==> (start.src_id() == end.src_id() && start.byte()
            <= end.byte()),
{
}

/// Every span is `Span::between` of its two ends, and a well-formed span
/// lies in the source of its start.
pub proof fn lemma_span_eq(span: Span)
    ensures
        span == Span::between(span.start(), span.end()),
        span.src_id() == span.start().src_id(),
        span.wf() ==> span == Span::at(span.src_id(), span.start().byte(), span.end().byte()),
        span.wf() <==> (span.start().src_id() == span.end().src_id() && span.start().byte()
            <= span.end().byte()),
{
}

pub broadcast group group_span_lemmas {
    lemma_pos_at,
    lemma_span_between,
}

/// The number of bytes in the encoding of the character whose first byte is
/// `first`.
pub open spec fn char_width(first: u8) -> int {
    if first < 0x80 {
        1
    } else if first < 0xE0 {
        2
    } else if first < 0xF0 {
        3
    } else {
        4
    }
}

/// In a UTF-8 text, the offsets of character boundaries are the end of the
/// text and the offsets of the bytes that are not continuation bytes.
pub proof fn lemma_boundary_bytes(bytes: Seq<u8>, p: int)
    requires
        valid_utf8(bytes),
    ensures
        is_char_boundary(bytes, p) <==> (p == bytes.len() || (0 <= p < bytes.len()
            && !is_continuation_byte(bytes[p]))),
        is_char_boundary(bytes, p) ==> 0 <= p <= bytes.len(),
{
    if 0 <= p < bytes.len() {
        is_char_boundary_iff_not_is_continuation_byte(bytes, p);
    } else if p == bytes.len() {
        is_char_boundary_start_end_of_seq(bytes);
    } else if is_char_boundary(bytes, p) {
        lemma_boundary_in_range(bytes, p);
    }
}

/// A character boundary lies within the text.
proof fn lemma_boundary_in_range(bytes: Seq<u8>, p: int)
    requires
        valid_utf8(bytes),
        is_char_boundary(bytes, p),
    ensures
        0 <= p <= bytes.len(),
    decreases bytes.len(),
{
    if p != 0 && !(p < 0 || bytes.len() < p) {
        lemma_boundary_in_range(pop_first_scalar(bytes), p - length_of_first_scalar(bytes));
    }
}

/// From a character boundary before the end of a UTF-8 text, the next
/// boundary lies one character width further.
pub proof fn lemma_next_boundary(bytes: Seq<u8>, p: int)
    requires
        valid_utf8(bytes),
        is_char_boundary(bytes, p),
        0 <= p < bytes.len(),
    ensures
        !is_continuation_byte(bytes[p]),
        p + char_width(bytes[p]) <= bytes.len(),
        is_char_boundary(bytes, p + char_width(bytes[p])),
        forall|k: int| p < k < p + char_width(bytes[p]) ==> is_continuation_byte(#[trigger] bytes[k]),
{
    let len = bytes.len() as int;
    let suffix = bytes.subrange(p, len);
    valid_utf8_split(bytes, p);
    assert(suffix[0] == bytes[p]);
    assert(valid_first_scalar(suffix));
    let w = length_of_first_scalar(suffix);
    assert(w == char_width(bytes[p]));
    let q = p + w;
    let rest = pop_first_scalar(suffix);
    assert(rest =~= bytes.subrange(q, len));
    assert forall|k: int| p < k < q implies is_continuation_byte(#[trigger] bytes[k]) by {
        assert(bytes[k] == suffix[k - p]);
    }
    assert(valid_utf8(rest));
    if q < len {
        assert(valid_first_scalar(rest));
        assert(rest[0] == bytes[q]);
    }
    lemma_boundary_bytes(bytes, q);
    lemma_boundary_bytes(bytes, p);
}

/// The offsets below `n` of the newline bytes of `bytes`, ascending.
pub open spec fn newline_offsets(bytes: Seq<u8>, n: int) -> Seq<int>
    decreases n,
{
    if n <= 0 {
        Seq::empty()
    } else if bytes[n - 1] == NEWLINE {
        newline_offsets(bytes, n - 1).push(n - 1)
    } else {
        newline_offsets(bytes, n - 1)
    }
}

/// The offset at which each line of `bytes` ends: that of every newline
/// byte, and the length of the text where its last line has no newline.
pub open spec fn line_ends(bytes: Seq<u8>) -> Seq<int> {
    let newlines = newline_offsets(bytes, bytes.len() as int);
    if bytes.len() > 0 && bytes.last() == NEWLINE {
        newlines
    } else {
        newlines.push(bytes.len() as int)
    }
}

/// The number of entries of `ends` that are below `byte`.
pub open spec fn count_below(ends: Seq<int>, byte: int) -> int
    decreases ends.len(),
{
    if ends.len() == 0 {
        0
    } else {
        count_below(ends.drop_last(), byte) + if ends.last() < byte {
            1int
        } else {
            0int
        }
    }
}

/// The 1-indexed line of the offset `byte`: a newline belongs to the line
/// that it ends.
pub open spec fn line_of_byte(bytes: Seq<u8>, byte: int) -> int {
    1 + count_below(line_ends(bytes), byte)
}

/// The offset of the first byte of the 1-indexed line `line`.
pub open spec fn line_start(bytes: Seq<u8>, line: int) -> int {
    if line <= 1 {
        0
    } else {
        line_ends(bytes)[line - 2] + 1
    }
}

/// The 1-indexed column of the offset `byte`, counted in bytes from the
/// start of its line.
pub open spec fn col_of_byte(bytes: Seq<u8>, byte: int) -> int {
    byte - line_start(bytes, line_of_byte(bytes, byte)) + 1
}

/// Each entry of `s` is below the next.
pub open spec fn strictly_increasing(s: Seq<int>) -> bool {
    forall|i: int, j: int| 0 <= i < j < s.len() ==> s[i] < s[j]
}

/// What `newline_offsets` holds: exactly the newline bytes below `n`, in
/// ascending order.
pub proof fn lemma_newline_offsets(bytes: Seq<u8>, n: int)
    requires
        0 <= n <= bytes.len(),
    ensures
        strictly_increasing(newline_offsets(bytes, n)),
        newline_offsets(bytes, n).len() <= n,
        forall|k: int|
            0 <= k < newline_offsets(bytes, n).len() ==> {
                &&& 0 <= #[trigger] newline_offsets(bytes, n)[k] < n
                &&& bytes[newline_offsets(bytes, n)[k]] == NEWLINE
            },
        forall|i: int|
            0 <= i < n && bytes[i] == NEWLINE ==> newline_offsets(bytes, n).contains(i),
    decreases n,
{
    if n > 0 {
        lemma_newline_offsets(bytes, n - 1);
        let prev = newline_offsets(bytes, n - 1);
        let cur = newline_offsets(bytes, n);
        if bytes[n - 1] == NEWLINE {
            assert(cur[cur.len() - 1] == n - 1);
        }
        assert forall|i: int| 0 <= i < n && bytes[i] == NEWLINE implies cur.contains(i) by {
            if i < n - 1 {
                let k = choose|k: int| 0 <= k < prev.len() && prev[k] == i;
                assert(cur[k] == i);
            } else {
                assert(cur[cur.len() - 1] == i);
            }
        }
    }
}

/// What `line_ends` holds: at least one entry, ascending, none beyond the
/// length of the text, and no more entries than the text has bytes, but
/// for the one entry of a text without a newline.
pub proof fn lemma_line_ends(bytes: Seq<u8>)
    ensures
        strictly_increasing(line_ends(bytes)),
        1 <= line_ends(bytes).len() <= bytes.len() + 1,
        bytes.len() > 0 ==> line_ends(bytes).len() <= bytes.len(),
        forall|k: int|
            0 <= k < line_ends(bytes).len() ==> 0 <= #[trigger] line_ends(bytes)[k]
                <= bytes.len(),
        forall|k: int|
            0 <= k < line_ends(bytes).len() && line_ends(bytes)[k] < bytes.len()
                ==> bytes[#[trigger] line_ends(bytes)[k]] == NEWLINE,
        line_ends(bytes).last() >= bytes.len() - 1,
        forall|i: int| 0 <= i < bytes.len() && bytes[i] == NEWLINE ==> line_ends(bytes).contains(i),
{
    let n = bytes.len() as int;
    lemma_newline_offsets(bytes, n);
    let newlines = newline_offsets(bytes, n);
    let ends = line_ends(bytes);
    if n > 0 && bytes.last() == NEWLINE {
        assert(newlines.contains(n - 1));
        let k = choose|k: int| 0 <= k < newlines.len() && newlines[k] == n - 1;
        assert(newlines.last() >= newlines[k]) by {
            if k < newlines.len() - 1 {
                assert(newlines[k] < newlines[newlines.len() - 1]);
            }
        }
    } else {
        if n > 0 {
            lemma_newline_offsets(bytes, n - 1);
            assert(newlines == newline_offsets(bytes, n - 1));
        }
        assert forall|i: int| 0 <= i < n && bytes[i] == NEWLINE implies ends.contains(i) by {
            let k = choose|k: int| 0 <= k < newlines.len() && newlines[k] == i;
            assert(ends[k] == i);
        }
    }
}

/// In an ascending sequence, the entries below `byte` are a prefix: if they
/// are the first `i`, `count_below` is `i`.
pub proof fn lemma_count_below_split(ends: Seq<int>, byte: int, i: int)
    requires
        0 <= i <= ends.len(),
        forall|k: int| 0 <= k < i ==> ends[k] < byte,
        forall|k: int| i <= k < ends.len() ==> ends[k] >= byte,
    ensures
        count_below(ends, byte) == i,
    decreases ends.len(),
{
    if ends.len() > 0 {
        let init = ends.drop_last();
        if i == ends.len() {
            lemma_count_below_split(init, byte, i - 1);
        } else {
            lemma_count_below_split(init, byte, i);
        }
    }
}

/// `count_below` is bounded by the length, and in an ascending sequence it
/// splits the entries: those before it are below `byte`, the others are not.
pub proof fn lemma_count_below(ends: Seq<int>, byte: int)
    requires
        strictly_increasing(ends),
    ensures
        0 <= count_below(ends, byte) <= ends.len(),
        forall|k: int| 0 <= k < count_below(ends, byte) ==> ends[k] < byte,
        forall|k: int| count_below(ends, byte) <= k < ends.len() ==> ends[k] >= byte,
    decreases ends.len(),
{
    if ends.len() > 0 {
        let init = ends.drop_last();
        lemma_count_below(init, byte);
        let c = count_below(init, byte);
        if ends.last() < byte {
            assert forall|k: int| 0 <= k < ends.len() - 1 implies ends[k] < byte by {
                assert(ends[k] < ends[ends.len() - 1]);
            }
            lemma_count_below_split(init, byte, init.len() as int);
        } else {
            assert forall|k: int| c <= k < ends.len() implies ends[k] >= byte by {
                if k < ends.len() - 1 {
                    assert(init[k] >= byte);
                }
            }
        }
        assert forall|k: int| 0 <= k < count_below(ends, byte) implies ends[k] < byte by {
            if k < init.len() {
                assert(init[k] == ends[k]);
            }
        }
    }
}

/// The newline offsets below `m` are the first of those below any `n`
/// from `m` on, and the others are not below `m`.
pub proof fn lemma_newline_offsets_prefix(bytes: Seq<u8>, m: int, n: int)
    requires
        0 <= m <= n <= bytes.len(),
    ensures
        newline_offsets(bytes, m).len() <= newline_offsets(bytes, n).len(),
        forall|k: int|
            0 <= k < newline_offsets(bytes, m).len() ==> newline_offsets(bytes, m)[k]
                == newline_offsets(bytes, n)[k],
        forall|k: int|
            newline_offsets(bytes, m).len() <= k < newline_offsets(bytes, n).len()
                ==> newline_offsets(bytes, n)[k] >= m,
    decreases n - m,
{
    if m < n {
        lemma_newline_offsets_prefix(bytes, m, n - 1);
    }
}

/// An offset within the text lies on the line whose number is one more
/// than the number of newlines before the offset.
pub proof fn lemma_line_of_counts_newlines(bytes: Seq<u8>, byte: int)
    requires
        0 <= byte <= bytes.len(),
    ensures
        line_of_byte(bytes, byte) == 1 + newline_offsets(bytes, byte).len(),
{
    let ends = line_ends(bytes);
    let before = newline_offsets(bytes, byte);
    lemma_newline_offsets(bytes, byte);
    lemma_newline_offsets_prefix(bytes, byte, bytes.len() as int);
    lemma_count_below_split(ends, byte, before.len() as int);
}

/// The start of the line of any offset lies on that same line, in column 1.
pub proof fn lemma_line_start_in_first_column(bytes: Seq<u8>, byte: int)
    ensures
        line_of_byte(bytes, line_start(bytes, line_of_byte(bytes, byte))) == line_of_byte(
            bytes,
            byte,
        ),
        col_of_byte(bytes, line_start(bytes, line_of_byte(bytes, byte))) == 1,
        line_start(bytes, line_of_byte(bytes, byte)) <= byte || byte < 0,
{
    let ends = line_ends(bytes);
    lemma_line_ends(bytes);
    lemma_count_below(ends, byte);
    let line = line_of_byte(bytes, byte);
    let start = line_start(bytes, line);
    if line <= 1 {
        lemma_count_below_split(ends, 0, 0);
    } else {
        lemma_count_below_split(ends, start, line - 1);
    }
}

/// Lines and columns are counted from 1.
pub proof fn lemma_line_and_col_positive(bytes: Seq<u8>, byte: int)
    requires
        0 <= byte,
    ensures
        1 <= line_of_byte(bytes, byte) <= line_ends(bytes).len() + 1,
        1 <= col_of_byte(bytes, byte),
{
    lemma_line_ends(bytes);
    lemma_count_below(line_ends(bytes), byte);
    lemma_line_start_in_first_column(bytes, byte);
}

/// The line number never decreases as the offset grows.
pub proof fn lemma_line_of_monotonic(bytes: Seq<u8>, byte1: int, byte2: int)
    requires
        byte1 <= byte2,
    ensures
        line_of_byte(bytes, byte1) <= line_of_byte(bytes, byte2),
{
    let ends = line_ends(bytes);
    lemma_line_ends(bytes);
    lemma_count_below(ends, byte1);
    lemma_count_below(ends, byte2);
    let c1 = count_below(ends, byte1);
    let c2 = count_below(ends, byte2);
    if c1 > c2 {
        assert(ends[c2] < byte1);
        assert(ends[c2] >= byte2);
    }
}

/// Two offsets are on one line exactly if no line ends between them.
pub proof fn lemma_same_line(bytes: Seq<u8>, byte1: int, byte2: int)
    requires
        byte1 <= byte2,
    ensures
        line_of_byte(bytes, byte1) == line_of_byte(bytes, byte2) <==> forall|k: int|
            0 <= k < line_ends(bytes).len() ==> !(byte1 <= #[trigger] line_ends(bytes)[k] < byte2),
{
    let ends = line_ends(bytes);
    lemma_line_ends(bytes);
    lemma_count_below(ends, byte1);
    lemma_count_below(ends, byte2);
    lemma_line_of_monotonic(bytes, byte1, byte2);
    let c1 = count_below(ends, byte1);
    let c2 = count_below(ends, byte2);
    if c1 < c2 {
        assert(byte1 <= ends[c1] < byte2);
    }
}

/// A literal or virtual file from which source code is read.
#[derive(Debug)]
pub struct Source {
    /// The id this source has in its `SourceMap`.
    id: SourceId,
    /// The name associated with this source. Note that this may not literally
    /// be a file name if the code does not come from disk.
    filename: String,
    /// The text content of the source file.
    text: String,
    /// The cached line ends of `text`, used to compute line numbers.
    newlines: Vec<usize>,
}

impl Source {
    /// The cached table holds the line ends of the text, whose length is
    /// below the largest `usize`.
    #[verifier::type_invariant]
    pub closed spec fn wf(&self) -> bool {
        &&& self.bytes().len() < usize::MAX
        &&& self.newlines@.len() == line_ends(self.bytes()).len()
        &&& forall|k: int|
            0 <= k < self.newlines@.len() ==> #[trigger] self.newlines@[k] == line_ends(
                self.bytes(),
            )[k]
    }

    pub closed spec fn spec_id(&self) -> SourceId {
        self.id
    }

    pub closed spec fn spec_filename(&self) -> Seq<char> {
        self.filename@
    }

    pub closed spec fn spec_text(&self) -> Seq<char> {
        self.text@
    }

    /// The UTF-8 encoding of the text, which all offsets index.
    pub open spec fn bytes(&self) -> Seq<u8> {
        encode_utf8(self.spec_text())
    }

    /// `pos` lies in this source, on a character boundary of its text.
    pub open spec fn valid_pos(&self, pos: SourcePos) -> bool {
        &&& pos.src_id() == self.id()
        &&& is_char_boundary(self.bytes(), pos.byte() as int)
    }

    /// `span` lies in this source, and both its ends are on character
    /// boundaries of its text.
    pub open spec fn valid_span(&self, span: Span) -> bool {
        &&& span == Span::at(self.id(), span.start().byte(), span.end().byte())
        &&& span.start().byte() <= span.end().byte()
        &&& is_char_boundary(self.bytes(), span.start().byte() as int)
        &&& is_char_boundary(self.bytes(), span.end().byte() as int)
    }

    /// The bytes of the text that `span` covers.
    pub open spec fn bytes_of_span(&self, span: Span) -> Seq<u8> {
        self.bytes().subrange(span.start().byte() as int, span.end().byte() as int)
    }

    /// The text of a well-formed source is valid UTF-8 of less than the
    /// largest `usize` bytes, and starts and ends on character boundaries.
    pub proof fn lemma_text(&self)
        requires
            self.wf(),
        ensures
            self.bytes().len() < usize::MAX,
            valid_utf8(self.bytes()),
            is_char_boundary(self.bytes(), 0),
            is_char_boundary(self.bytes(), self.bytes().len() as int),
    {
        encode_utf8_valid_utf8(self.spec_text());
        is_char_boundary_start_end_of_seq(self.bytes());
    }

    /// The text that `span` covers.
    pub open spec fn text_of(&self, span: Span) -> Seq<char> {
        decode_utf8(self.bytes_of_span(span))
    }

    /// The line ends of `text`.
    fn compute_newlines(text: &str) -> (newlines: Vec<usize>)
        ensures
            newlines@.len() == line_ends(text.spec_bytes()).len(),
            forall|k: int|
                0 <= k < newlines@.len() ==> #[trigger] newlines@[k] == line_ends(
                    text.spec_bytes(),
                )[k],
    {
        let bytes = text.as_bytes();
        let n: usize = bytes.len();
        let mut newlines: Vec<usize> = Vec::new();
        let mut i: usize = 0;
        while i < n
            invariant
                i <= n,
                n == bytes@.len(),
                newlines@.len() == newline_offsets(bytes@, i as int).len(),
                forall|k: int|
                    0 <= k < newlines@.len() ==> #[trigger] newlines@[k] == newline_offsets(
                        bytes@,
                        i as int,
                    )[k],
            decreases n - i,
        {
            if bytes[i] == NEWLINE {
                newlines.push(i);
            }
            i += 1;
        }
        // We make sure the last line is terminated.
        if n == 0 || bytes[n - 1] != NEWLINE {
            newlines.push(n);
        }
        newlines
    }

    /// Create a new source file with the given id from our `SourceMap`,
    /// `filename`, and `text` content.
    fn new(id: SourceId, filename: String, text: String) -> (source: Self)
        requires
            encode_utf8(text@).len() < usize::MAX,
        ensures
            source.id() == id,
            source.spec_filename() == filename@,
            source.spec_text() == text@,
            source.wf(),
    {
        let newlines = Self::compute_newlines(text.as_str());
        Self { id, filename, newlines, text }
    }

    /// Get the id this source has in its `SourceMap`.
    #[verifier::when_used_as_spec(spec_id)]
    pub fn id(&self) -> (id: SourceId)
        ensures
            id == self.spec_id(),
    {
        self.id
    }

    /// Get the name associated with this source. Note that this may not literally
    /// be a file name if the code does not come from disk.
    pub fn filename(&self) -> (name: &str)
        ensures
            name@ == self.spec_filename(),
    {
        self.filename.as_str()
    }

    /// Get the text content of the source file.
    pub fn text(&self) -> (text: &str)
        ensures
            text@ == self.spec_text(),
            text.spec_bytes() == self.bytes(),
            self.bytes().len() < usize::MAX,
            valid_utf8(self.bytes()),
    {
        proof {
            use_type_invariant(self);
            encode_utf8_valid_utf8(self.text@);
        }
        self.text.as_str()
    }

    /// The text that `span` covers.
    pub fn text_of_span(&self, span: Span) -> (text: &str)
        requires
            self.valid_span(span),
        ensures
            text.spec_bytes() == self.bytes_of_span(span),
            text@ == self.text_of(span),
    {
        let whole = self.text();
        let start: usize = span.start().byte();
        let end: usize = span.end().byte();
        proof {
            let bytes = self.bytes();
            lemma_boundary_bytes(bytes, start as int);
            lemma_boundary_bytes(bytes, end as int);
            valid_utf8_split(bytes, end as int);
            lemma_boundary_bytes(bytes.subrange(0, end as int), start as int);
        }
        let (head, _) = whole.split_at(end);
        let (_, text) = head.split_at(start);
        proof {
            assert(text.spec_bytes() =~= self.bytes_of_span(span));
            encode_utf8_decode_utf8(text@);
        }
        text
    }

    /// Whether `span` lies in this source with both ends on character
    /// boundaries of its text.
    pub fn contains_span(&self, span: Span) -> (b: bool)
        ensures
            b == self.valid_span(span),
    {
        broadcast use group_span_lemmas;

        proof {
            lemma_span_eq(span);
            lemma_pos_eq(span.start());
            lemma_pos_eq(span.end());
        }
        let text = self.text();
        span.start().src_id() == self.id && span.end().src_id() == self.id && span.start().byte()
            <= span.end().byte() && text.is_char_boundary(span.start().byte())
            && text.is_char_boundary(span.end().byte())
    }

    /// Get the `SourcePos` for the given byte offset, which is aligned with
    /// the start of a utf8 boundary.
    fn pos_from_byte(&self, byte: usize) -> (pos: SourcePos)
        requires
            is_char_boundary(self.bytes(), byte as int),
        ensures
            pos == SourcePos::at(self.id(), byte),
            self.valid_pos(pos),
    {
        broadcast use group_span_lemmas;

        SourcePos::new(self.id(), byte)
    }

    /// The 1-indexed line number of the given position within this source.
    ///
    /// The newline for a line, if it exists, is considered part of the line
    /// it ends.
    pub fn line_of(&self, pos: SourcePos) -> (line: usize)
        requires
            pos.src_id() == self.id(),
        ensures
            line == line_of_byte(self.bytes(), pos.byte() as int),
    {
        proof {
            use_type_invariant(self);
            lemma_line_ends(self.bytes());
        }
        let byte: usize = pos.byte();
        let ghost ends = line_ends(self.bytes());
        let mut lo: usize = 0;
        let mut hi: usize = self.newlines.len();
        while lo < hi
            invariant
                lo <= hi <= self.newlines@.len(),
                self.newlines@.len() == ends.len(),
                forall|k: int| 0 <= k < ends.len() ==> #[trigger] self.newlines@[k] == ends[k],
                strictly_increasing(ends),
                forall|k: int| 0 <= k < lo ==> ends[k] < byte,
                forall|k: int| hi <= k < ends.len() ==> ends[k] >= byte,
            decreases hi - lo,
        {
            let mid: usize = lo + (hi - lo) / 2;
            if self.newlines[mid] < byte {
                assert forall|k: int| 0 <= k < mid + 1 implies ends[k] < byte by {
                    if k < mid {
                        assert(ends[k] < ends[mid as int]);
                    }
                }
                lo = mid + 1;
            } else {
                assert forall|k: int| mid <= k < ends.len() implies ends[k] >= byte by {
                    if k > mid {
                        assert(ends[mid as int] < ends[k]);
                    }
                }
                hi = mid;
            }
        }
        proof {
            lemma_count_below_split(ends, byte as int, lo as int);
        }
        lo + 1
    }

    /// The first byte of the 1-indexed line.
    fn first_byte_of_line(&self, line: usize) -> (byte: usize)
        requires
            1 <= line <= line_ends(self.bytes()).len() + 1,
        ensures
            byte == line_start(self.bytes(), line as int),
    {
        proof {
            use_type_invariant(self);
            lemma_line_ends(self.bytes());
        }
        let line: usize = line - 1;
        if line == 0 {
            0  // The first line starts at byte 0.
        } else {
            // Other lines start at one past the end of the previous line.
            self.newlines[line - 1] + 1
        }
    }

    /// The 1-indexed column number of the given position within this source.
    pub fn col_of(&self, pos: SourcePos) -> (col: usize)
        requires
            pos.src_id() == self.id(),
        ensures
            col == col_of_byte(self.bytes(), pos.byte() as int),
    {
        proof {
            use_type_invariant(self);
            lemma_line_ends(self.bytes());
            lemma_count_below(line_ends(self.bytes()), pos.byte() as int);
            lemma_line_start_in_first_column(self.bytes(), pos.byte() as int);
        }
        let line: usize = self.line_of(pos);
        let start_byte: usize = self.first_byte_of_line(line);
        pos.byte() - start_byte + 1
    }

    /// Get the span in this source that starts at the inclusive byte index
    /// `start` and ends at the exclusive byte index `end`.
    pub fn span(&self, start: usize, end: usize) -> (span: Span)
        requires
            start <= end,
            is_char_boundary(self.bytes(), start as int),
            is_char_boundary(self.bytes(), end as int),
        ensures
            span == Span::at(self.id(), start, end),
            self.valid_span(span),
            span.src_id() == self.id(),
            span.start().byte() == start,
            span.end().byte() == end,
    {
        broadcast use group_span_lemmas;

        let start_pos = self.pos_from_byte(start);
        let end_pos = self.pos_from_byte(end);
        Span::new(start_pos, end_pos)
    }

    /// Get the span in this source that starts at the inclusive byte index
    /// start and has the given length.
    pub fn span_with_len(&self, start: usize, len: usize) -> (span: Span)
        requires
            is_char_boundary(self.bytes(), start as int),
            is_char_boundary(self.bytes(), start + len),
        ensures
            span == Span::at(self.id(), start, (start + len) as usize),
            self.valid_span(span),
    {
        proof {
            use_type_invariant(self);
            encode_utf8_valid_utf8(self.text@);
            lemma_boundary_bytes(self.bytes(), start + len);
        }
        self.span(start, start + len)
    }

    /// Gives the span of the text on the given line, not including the final newline.
    pub fn span_of_line(&self, line: usize) -> (span: Span)
        requires
            1 <= line <= line_ends(self.bytes()).len(),
        ensures
            span == Span::at(
                self.id(),
                line_start(self.bytes(), line as int) as usize,
                line_ends(self.bytes())[line - 1] as usize,
            ),
            self.valid_span(span),
    {
        proof {
            use_type_invariant(self);
            encode_utf8_valid_utf8(self.text@);
            let bytes = self.bytes();
            let ends = line_ends(bytes);
            lemma_line_ends(bytes);
            lemma_boundary_bytes(bytes, ends[line - 1]);
            if line > 1 {
                assert(ends[line - 2] < ends[line - 1]);
                lemma_boundary_bytes(bytes, ends[line - 2]);
                lemma_next_boundary(bytes, ends[line - 2]);
            } else {
                lemma_boundary_bytes(bytes, 0);
            }
        }
        let start: usize = self.first_byte_of_line(line);
        let end: usize = self.first_byte_of_line(line + 1) - 1;  // Remove the newline.
        self.span(start, end)
    }

    /// The number of lines of the text.
    pub fn line_count(&self) -> (count: usize)
        ensures
            count == line_ends(self.bytes()).len(),
    {
        proof {
            use_type_invariant(self);
        }
        self.newlines.len()
    }
}

/// A struct to manage and own all the `Source`s the compiler uses.
#[derive(Debug)]
pub struct SourceMap {
    /// The list of `Source`s. The index in this vector is the `SourceId` of a
    /// `Source`.
    sources: Vec<Source>,
}

impl Default for SourceMap {
    fn default() -> (map: Self)
        ensures
            map.spec_sources().len() == 0,
    {
        Self { sources: Vec::new() }
    }
}

impl SourceMap {
    /// Every source carries the id that finds it.
    #[verifier::type_invariant]
    pub closed spec fn wf(&self) -> bool {
        forall|i: int|
            0 <= i < self.sources@.len() ==> (#[trigger] self.sources@[i]).id().index() == i
    }

    /// The registered sources, in insertion order.
    pub closed spec fn spec_sources(&self) -> Seq<Source> {
        self.sources@
    }

    /// `id` was issued by this map.
    pub open spec fn contains_id(&self, id: SourceId) -> bool {
        id.index() < self.spec_sources().len()
    }

    /// The source that `id` identifies.
    pub open spec fn source_of(&self, id: SourceId) -> Source {
        self.spec_sources()[id.index() as int]
    }

    /// Create a new, empty `SourceMap`.
    pub fn new() -> (map: Self)
        ensures
            map.spec_sources().len() == 0,
    {
        Self { sources: Vec::new() }
    }

    /// Creates a new `Source` from the name `filename` and content `text`.
    ///
    /// Returns the `SourceId` of the newly created `Source`.
    pub fn add_source(&mut self, filename: String, text: String) -> (id: SourceId)
        requires
            encode_utf8(text@).len() < usize::MAX,
        ensures
            id.index() == old(self).spec_sources().len(),
            final(self).spec_sources().len() == old(self).spec_sources().len() + 1,
            forall|i: int|
                0 <= i < old(self).spec_sources().len() ==> final(self).spec_sources()[i] == old(
                    self,
                ).spec_sources()[i],
            final(self).source_of(id).id() == id,
            final(self).source_of(id).spec_filename() == filename@,
            final(self).source_of(id).spec_text() == text@,
    {
        proof {
            use_type_invariant(&*self);
        }
        let id = SourceId(self.sources.len());
        let source = Source::new(id, filename, text);
        let mut sources: Vec<Source> = Vec::new();
        std::mem::swap(&mut self.sources, &mut sources);
        sources.push(source);
        std::mem::swap(&mut self.sources, &mut sources);
        id
    }

    /// Whether `id` was issued by this map.
    pub fn contains(&self, id: SourceId) -> (b: bool)
        ensures
            b == self.contains_id(id),
    {
        id.0 < self.sources.len()
    }

    /// Returns the `Source` with the given id.
    pub fn get_source(&self, id: SourceId) -> (source: &Source)
        requires
            self.contains_id(id),
        ensures
            *source == self.source_of(id),
            source.id() == id,
    {
        proof {
            use_type_invariant(self);
        }
        &self.sources[id.0]
    }

    /// The `Source`s in the map, in insertion order: each is the source
    /// that its own id identifies.
    pub fn sources(&self) -> (sources: &[Source])
        ensures
            sources@ == self.spec_sources(),
            forall|i: int|
                0 <= i < sources@.len() ==> {
                    &&& self.contains_id((#[trigger] sources@[i]).id())
                    &&& self.source_of(sources@[i].id()) == sources@[i]
                },
    {
        proof {
            use_type_invariant(self);
        }
        self.sources.as_slice()
    }
}

} // verus!

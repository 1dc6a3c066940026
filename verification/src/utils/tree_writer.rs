//! Writing trees as indented text.
//!
//! A tree is written as its name and, between curly brackets, its fields,
//! one on each line. What is written after a newline is indented by two
//! spaces for each level, so that a tree written as the field of another
//! is indented as a whole.

use crate::diagnostics::text::repeat;
use crate::source_map::NEWLINE;
use vstd::prelude::*;
use vstd::string::*;
use vstd::utf8::*;

verus! {

/// The indentation at `depth` if `on_newline`, else nothing.
pub open spec fn indentation(depth: nat, on_newline: bool) -> Seq<char> {
    if on_newline {
        repeat(' ', 2 * depth)
    } else {
        Seq::empty()
    }
}

/// `text` with the indentation before every character that starts a
/// line, the newline of an empty line too: two spaces for each level of
/// `depth`. The first character starts a line if `on_newline`.
pub open spec fn indented(text: Seq<char>, depth: nat, on_newline: bool) -> Seq<char>
    decreases text.len(),
{
    if text.len() == 0 {
        Seq::empty()
    } else {
        indentation(depth, on_newline) + seq![text[0]] + indented(
            text.drop_first(),
            depth,
            text[0] == '\n',
        )
    }
}

/// Whether what follows `text` starts a line.
pub open spec fn ends_line(text: Seq<char>, on_newline: bool) -> bool {
    if text.len() == 0 {
        on_newline
    } else {
        text.last() == '\n'
    }
}

/// No character of `text` is a newline.
pub open spec fn no_newline(text: Seq<char>) -> bool {
    forall|i: int| 0 <= i < text.len() ==> text[i] != '\n'
}

/// `text` is a line: it ends with its only newline.
pub open spec fn is_line(text: Seq<char>) -> bool {
    &&& text.len() > 0
    &&& text.last() == '\n'
    &&& no_newline(text.drop_last())
}

/// Text without a newline takes the indentation of its first line only.
pub proof fn lemma_indented_no_newline(text: Seq<char>, depth: nat, on_newline: bool)
    requires
        text.len() > 0,
        no_newline(text),
    ensures
        indented(text, depth, on_newline) == indentation(depth, on_newline) + text,
    decreases text.len(),
{
    let rest = text.drop_first();
    assert(text[0] != '\n');
    assert(seq![text[0]] + rest =~= text);
    if rest.len() > 0 {
        assert forall|i: int| 0 <= i < rest.len() implies rest[i] != '\n' by {
            assert(rest[i] == text[i + 1]);
        }
        lemma_indented_no_newline(rest, depth, false);
        assert(indentation(depth, false) + rest =~= rest);
    }
    assert(indentation(depth, on_newline) + seq![text[0]] + indented(rest, depth, false)
        =~= indentation(depth, on_newline) + (seq![text[0]] + rest));
}

/// A line takes its indentation, and what follows it starts a line.
pub proof fn lemma_indented_line(line: Seq<char>, rest: Seq<char>, depth: nat, on_newline: bool)
    requires
        is_line(line),
    ensures
        indented(line + rest, depth, on_newline) == indentation(depth, on_newline) + line
            + indented(rest, depth, true),
    decreases line.len(),
{
    let text = line + rest;
    assert(text[0] == line[0]);
    if line.len() == 1 {
        assert(text.drop_first() =~= rest);
        assert(seq![text[0]] =~= line);
    } else {
        let tail = line.drop_first();
        assert(line.drop_last()[0] == line[0]);
        assert(tail.drop_last() =~= line.drop_last().drop_first());
        assert forall|i: int| 0 <= i < tail.drop_last().len() implies tail.drop_last()[i]
            != '\n' by {
            assert(tail.drop_last()[i] == line.drop_last()[i + 1]);
        }
        assert(text.drop_first() =~= tail + rest);
        lemma_indented_line(tail, rest, depth, false);
        assert(indentation(depth, on_newline) + seq![text[0]] + (indentation(depth, false) + tail
            + indented(rest, depth, true)) =~= indentation(depth, on_newline) + line + indented(
            rest,
            depth,
            true,
        ));
    }
}

/// Text written in two pieces is indented as text written at once.
pub proof fn lemma_indented_add(
    first: Seq<char>,
    second: Seq<char>,
    depth: nat,
    on_newline: bool,
)
    ensures
        indented(first + second, depth, on_newline) == indented(first, depth, on_newline)
            + indented(second, depth, ends_line(first, on_newline)),
        ends_line(first + second, on_newline) == ends_line(second, ends_line(first, on_newline)),
    decreases first.len(),
{
    let text = first + second;
    if first.len() == 0 {
        assert(text =~= second);
        assert(indented(first, depth, on_newline) + indented(second, depth, on_newline)
            =~= indented(second, depth, on_newline));
    } else {
        let rest = first.drop_first();
        assert(text[0] == first[0]);
        assert(text.drop_first() =~= rest + second);
        lemma_indented_add(rest, second, depth, first[0] == '\n');
        if rest.len() > 0 {
            assert(rest.last() == first.last());
        }
        assert(indentation(depth, on_newline) + seq![first[0]] + (indented(
            rest,
            depth,
            first[0] == '\n',
        ) + indented(second, depth, ends_line(first, on_newline))) =~= indentation(
            depth,
            on_newline,
        ) + seq![first[0]] + indented(rest, depth, first[0] == '\n') + indented(
            second,
            depth,
            ends_line(first, on_newline),
        ));
        if second.len() > 0 {
            assert(text.last() == second.last());
        } else {
            assert(text =~= first);
        }
    }
}

/// The first character of a UTF-8 text is the newline exactly if its
/// first byte is.
pub proof fn lemma_first_char(bytes: Seq<u8>)
    requires
        valid_utf8(bytes),
        bytes.len() > 0,
    ensures
        decode_utf8(bytes).len() > 0,
        decode_utf8(bytes).drop_first() == decode_utf8(pop_first_scalar(bytes)),
        decode_utf8(bytes)[0] == '\n' <==> bytes[0] == NEWLINE,
        bytes[0] == NEWLINE ==> length_of_first_scalar(bytes) == 1,
        forall|i: int| 1 <= i < length_of_first_scalar(bytes) ==> bytes[i] != NEWLINE,
{
    let first = decode_utf8(bytes)[0];
    assert(decode_utf8(bytes).drop_first() =~= decode_utf8(pop_first_scalar(bytes)));
    decode_utf8_first_scalar(bytes);
    let scalar = first as u32;
    assert(encode_scalar(scalar) == take_first_scalar(bytes));
    assert(take_first_scalar(bytes)[0] == bytes[0]);
    if has_width_1_encoding(scalar) {
        assert((scalar & 0x7F) as u8 == 0x0A <==> scalar == 0x0A) by (bit_vector)
            requires
                scalar <= 0x7F,
        ;
    } else {
        assert(encode_scalar(scalar).len() >= 2);
    }
}

/// A UTF-8 text without a newline byte has no newline character, and is
/// empty only if it has no byte.
pub proof fn lemma_no_newline(bytes: Seq<u8>)
    requires
        valid_utf8(bytes),
        forall|i: int| 0 <= i < bytes.len() ==> bytes[i] != NEWLINE,
    ensures
        no_newline(decode_utf8(bytes)),
        bytes.len() > 0 ==> decode_utf8(bytes).len() > 0,
    decreases bytes.len(),
{
    if bytes.len() > 0 {
        let chars = decode_utf8(bytes);
        let rest = pop_first_scalar(bytes);
        lemma_first_char(bytes);
        assert forall|i: int| 0 <= i < rest.len() implies rest[i] != NEWLINE by {
            assert(rest[i] == bytes[i + length_of_first_scalar(bytes)]);
        }
        lemma_no_newline(rest);
        assert forall|i: int| 0 <= i < chars.len() implies chars[i] != '\n' by {
            if i > 0 {
                assert(chars[i] == chars.drop_first()[i - 1]);
            }
        }
    }
}

/// A UTF-8 text that ends with its only newline byte is a line.
pub proof fn lemma_is_line(bytes: Seq<u8>)
    requires
        valid_utf8(bytes),
        bytes.len() > 0,
        bytes.last() == NEWLINE,
        forall|i: int| 0 <= i < bytes.len() - 1 ==> bytes[i] != NEWLINE,
    ensures
        is_line(decode_utf8(bytes)),
    decreases bytes.len(),
{
    let chars = decode_utf8(bytes);
    let rest = pop_first_scalar(bytes);
    let width = length_of_first_scalar(bytes);
    lemma_first_char(bytes);
    if rest.len() == 0 {
        assert(width == bytes.len());
        assert(chars.drop_first() =~= Seq::empty());
        assert(chars.drop_last() =~= Seq::empty());
    } else {
        assert(rest.last() == bytes.last());
        assert forall|i: int| 0 <= i < rest.len() - 1 implies rest[i] != NEWLINE by {
            assert(rest[i] == bytes[i + width]);
        }
        lemma_is_line(rest);
        let tail = chars.drop_first();
        assert(chars.last() == tail.last());
        assert forall|i: int| 0 <= i < chars.drop_last().len() implies chars.drop_last()[i]
            != '\n' by {
            if i > 0 {
                assert(chars.drop_last()[i] == tail.drop_last()[i - 1]);
            }
        }
    }
}


/// What a writer holds: the text written, whether what comes next starts
/// a line, and the level of indentation.
pub struct WriterView {
    pub text: Seq<char>,
    pub on_newline: bool,
    pub depth: nat,
}

impl WriterView {
    /// A writer that has written nothing.
    pub open spec fn new() -> WriterView {
        WriterView { text: Seq::empty(), on_newline: false, depth: 0 }
    }

    /// The writer after `text` is written.
    pub open spec fn write(self, text: Seq<char>) -> WriterView {
        WriterView {
            text: self.text + indented(text, self.depth, self.on_newline),
            on_newline: ends_line(text, self.on_newline),
            depth: self.depth,
        }
    }

    /// Writing text in two pieces is writing it at once.
    pub proof fn lemma_write_add(self, first: Seq<char>, second: Seq<char>)
        ensures
            self.write(first).write(second) == self.write(first + second),
    {
        lemma_indented_add(first, second, self.depth, self.on_newline);
        assert(self.text + indented(first, self.depth, self.on_newline) + indented(
            second,
            self.depth,
            ends_line(first, self.on_newline),
        ) =~= self.text + (indented(first, self.depth, self.on_newline) + indented(
            second,
            self.depth,
            ends_line(first, self.on_newline),
        )));
    }

    /// The writer one level deeper.
    pub open spec fn indent(self) -> WriterView {
        WriterView { depth: self.depth + 1, ..self }
    }

    /// The writer one level less deep, if it is at any depth.
    pub open spec fn outdent(self) -> WriterView {
        WriterView {
            depth: if self.depth > 0 {
                (self.depth - 1) as nat
            } else {
                0
            },
            ..self
        }
    }

    /// The writer of a tree named `name`, ready for its fields.
    pub open spec fn start(name: Seq<char>) -> WriterView {
        WriterView::new().write(name).write(" {"@).write("\n"@).indent()
    }

    /// The writer after the field `name` with the value `value`.
    pub open spec fn field(self, name: Seq<char>, value: Seq<char>) -> WriterView {
        self.write(name).write(": "@).write(value).write("\n"@)
    }

    /// The writer after `items`, each on a line of its own.
    pub open spec fn items(self, items: Seq<Seq<char>>) -> WriterView
        decreases items.len(),
    {
        if items.len() == 0 {
            self
        } else {
            self.items(items.drop_last()).write("\n"@).write(items.last())
        }
    }

    /// The writer after the field `name` whose value is the list `items`,
    /// written between square brackets: on one line if there is no item.
    pub open spec fn field_list(self, name: Seq<char>, items: Seq<Seq<char>>) -> WriterView {
        let listed = self.write(name).write(": ["@).indent().items(items).outdent();
        let closed = if items.len() > 0 {
            listed.write("\n"@)
        } else {
            listed
        };
        closed.write("]"@).write("\n"@)
    }

    /// The text of the tree, closed.
    pub open spec fn finish(self) -> Seq<char> {
        self.outdent().write("}"@).text
    }
}

/// The views of a sequence of strings.
pub open spec fn string_views(strings: Seq<String>) -> Seq<Seq<char>> {
    strings.map_values(|s: String| s@)
}

/// Writes text, and indents what follows a newline.
struct IndentedWriter {
    buf: String,
    on_newline: bool,
    depth: usize,
}

impl View for IndentedWriter {
    type V = WriterView;

    closed spec fn view(&self) -> WriterView {
        WriterView { text: self.buf@, on_newline: self.on_newline, depth: self.depth as nat }
    }
}

impl IndentedWriter {
    /// A writer that goes on after `buf`, in the middle of a line.
    fn new(buf: String) -> (writer: Self)
        ensures
            writer@ == (WriterView { text: buf@, on_newline: false, depth: 0 }),
    {
        Self { buf, on_newline: false, depth: 0 }
    }

    /// Indents by one level more.
    fn indent(&mut self)
        requires
            old(self)@.depth < usize::MAX,
        ensures
            final(self)@ == old(self)@.indent(),
    {
        self.depth += 1;
    }

    /// Indents by one level less, if by any.
    fn outdent(&mut self)
        ensures
            final(self)@ == old(self)@.outdent(),
    {
        self.depth = self.depth.saturating_sub(1);
    }

    /// All that has been written.
    fn to_inner(self) -> (buf: String)
        ensures
            buf@ == self@.text,
    {
        self.buf
    }

    /// Writes the indentation, if what is written starts a line.
    fn write_indentation(&mut self)
        ensures
            final(self)@ == (WriterView {
                text: old(self)@.text + indentation(old(self)@.depth, old(self)@.on_newline),
                ..old(self)@
            }),
    {
        if self.on_newline {
            proof {
                reveal_strlit("  ");
            }
            let mut i: usize = 0;
            assert(self.buf@ =~= old(self).buf@ + repeat(' ', 0));
            while i < self.depth
                invariant
                    i <= self.depth,
                    self.depth == old(self).depth,
                    self.on_newline == old(self).on_newline,
                    "  "@ == seq![' ', ' '],
                    self.buf@ == old(self).buf@ + repeat(' ', 2 * i as nat),
                decreases self.depth - i,
            {
                self.buf.append("  ");
                i += 1;
                assert(self.buf@ =~= old(self).buf@ + repeat(' ', 2 * i as nat));
            }
        } else {
            assert(self.buf@ =~= old(self).buf@ + Seq::<char>::empty());
        }
    }

    /// Writes `s`, with the indentation before each of its lines.
    fn write_str(&mut self, s: &str)
        ensures
            final(self)@ == old(self)@.write(s@),
    {
        let ghost start = self@;
        let mut rest: &str = s;
        loop
            invariant_except_break
                self@.write(rest@) == start.write(s@),
            invariant
                self@.depth == start.depth,
            ensures
                self@ == start.write(s@),
            decreases rest.spec_bytes().len(),
        {
            let ghost before = self@;
            let ghost chars = rest@;
            let bytes = rest.as_bytes();
            proof {
                encode_utf8_valid_utf8(chars);
                encode_utf8_decode_utf8(chars);
            }
            if bytes.len() == 0 {
                proof {
                    assert(chars.len() == 0);
                    assert(before.text + indented(chars, before.depth, before.on_newline)
                        =~= before.text);
                }
                break ;
            }
            let mut end: usize = 0;
            while end < bytes.len() && bytes[end] != NEWLINE
                invariant
                    end <= bytes@.len(),
                    forall|i: int| 0 <= i < end ==> bytes@[i] != NEWLINE,
                decreases bytes@.len() - end,
            {
                end += 1;
            }
            self.write_indentation();
            if end < bytes.len() {
                proof {
                    crate::source_map::lemma_boundary_bytes(bytes@, end as int);
                    crate::source_map::lemma_next_boundary(bytes@, end as int);
                    valid_utf8_split(bytes@, end + 1);
                    decode_utf8_split(bytes@, end + 1);
                }
                let (line, tail) = rest.split_at(end + 1);
                proof {
                    encode_utf8_decode_utf8(line@);
                    encode_utf8_decode_utf8(tail@);
                    assert(chars =~= line@ + tail@);
                    assert(line.spec_bytes().last() == bytes@[end as int]);
                    lemma_is_line(line.spec_bytes());
                    lemma_indented_line(line@, tail@, before.depth, before.on_newline);
                }
                self.buf.append(line);
                self.on_newline = true;
                rest = tail;
                proof {
                    assert(self@.text + indented(tail@, before.depth, true) =~= before.text
                        + indented(chars, before.depth, before.on_newline));
                    if tail@.len() > 0 {
                        assert(chars.last() == tail@.last());
                    } else {
                        assert(chars =~= line@);
                    }
                }
            } else {
                proof {
                    lemma_no_newline(bytes@);
                    lemma_indented_no_newline(chars, before.depth, before.on_newline);
                }
                self.buf.append(rest);
                self.on_newline = false;
                proof {
                    assert(chars[chars.len() - 1] != '\n');
                    assert(self@.text =~= before.text + indented(
                        chars,
                        before.depth,
                        before.on_newline,
                    ));
                    assert(self@ == before.write(chars));
                }
                break ;
            }
        }
    }
}

/// Writes a tree: its name and, between curly brackets, its fields.
pub struct TreePrinter {
    wr: IndentedWriter,
}

impl View for TreePrinter {
    type V = WriterView;

    closed spec fn view(&self) -> WriterView {
        self.wr@
    }
}

impl TreePrinter {
    /// The fields of a tree are written one level deep.
    #[verifier::type_invariant]
    closed spec fn inv(&self) -> bool {
        self.wr@.depth == 1
    }

    /// Starts a tree named `name`.
    pub fn start(name: &str) -> (printer: Self)
        ensures
            printer@ == WriterView::start(name@),
    {
        let mut wr = IndentedWriter::new(String::new());
        wr.write_str(name);
        wr.write_str(" {");
        wr.write_str("\n");
        wr.indent();
        Self { wr }
    }

    /// Writes the field `name` with the value `t`.
    pub fn field(self, name: &str, t: &str) -> (printer: Self)
        ensures
            printer@ == self@.field(name@, t@),
    {
        proof {
            use_type_invariant(&self);
        }
        let mut wr = self.wr;
        wr.write_str(name);
        wr.write_str(": ");
        wr.write_str(t);
        wr.write_str("\n");
        Self { wr }
    }

    /// Writes the field `name` whose value is the list `ts`.
    pub fn field_list(self, name: &str, ts: &[String]) -> (printer: Self)
        ensures
            printer@ == self@.field_list(name@, string_views(ts@)),
    {
        proof {
            use_type_invariant(&self);
        }
        let mut wr = self.wr;
        let ghost items = string_views(ts@);
        wr.write_str(name);
        wr.write_str(": [");
        wr.indent();
        let ghost opened = wr@;

        let mut short = true;
        let mut i: usize = 0;
        proof {
            assert(items.take(0) =~= Seq::empty());
        }
        while i < ts.len()
            invariant
                i <= ts@.len(),
                items == string_views(ts@),
                short == (i == 0),
                wr@ == opened.items(items.take(i as int)),
                wr@.depth == opened.depth,
            decreases ts@.len() - i,
        {
            proof {
                assert(items.take(i + 1).drop_last() =~= items.take(i as int));
                assert(items.take(i + 1).last() == ts@[i as int]@);
            }
            short = false;
            wr.write_str("\n");
            wr.write_str(ts[i].as_str());
            i += 1;
        }
        proof {
            assert(items.take(i as int) =~= items);
        }

        wr.outdent();
        if !short {
            wr.write_str("\n");
        }
        wr.write_str("]");
        wr.write_str("\n");
        Self { wr }
    }

    /// Closes the tree and gives its text.
    pub fn finish(self) -> (text: String)
        ensures
            text@ == self@.finish(),
    {
        let mut wr = self.wr;
        wr.outdent();
        wr.write_str("}");
        wr.to_inner()
    }
}

} // verus!

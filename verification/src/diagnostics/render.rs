//! Rendering a diagnostic as annotated excerpts of source text.
//!
//! Every part of the diagnostic gives a position line, the source line
//! that holds its span, and below it a line of carets under the span,
//! followed by the part's annotation.

use super::text::{decimal, decimal_len, push_decimal, push_repeat, repeat};
use super::{part_views, Diagnostic, DiagnosticPart, DiagnosticView, PartView};
use crate::source_map::{
    col_of_byte, group_span_lemmas, lemma_line_and_col_positive, line_ends, line_of_byte,
    line_start, Source, SourceMap, SourcePos, Span,
};
use vstd::prelude::*;
use vstd::string::*;

verus! {

/// The strings that switch styles on and off in rendered text.
pub struct Style {
    /// Starts bold text.
    pub bold: Seq<char>,
    /// Starts the colour of the error label, the carets and annotations.
    pub error_accent: Seq<char>,
    /// Starts the colour of the gutter and the position marker.
    pub structural_accent: Seq<char>,
    /// Ends all styles.
    pub reset: Seq<char>,
}

/// The ANSI escape sequences: bold, bright red, bright blue, reset.
pub open spec fn ansi_style() -> Style {
    Style {
        bold: "\x1b[1m"@,
        error_accent: "\x1b[91m"@,
        structural_accent: "\x1b[94m"@,
        reset: "\x1b[0m"@,
    }
}

/// No styling at all.
pub open spec fn plain_style() -> Style {
    Style {
        bold: Seq::empty(),
        error_accent: Seq::empty(),
        structural_accent: Seq::empty(),
        reset: Seq::empty(),
    }
}

/// One line of a rendered diagnostic.
pub enum RenderLine {
    /// Where a part starts: file name, line and column.
    SourcePos(SourcePos),
    /// An empty line of the gutter.
    Padding,
    /// The line `line` of `source`.
    CodeLine { source: Source, line: nat },
    /// The carets under `span`, and the annotation `message`.
    Highlight { span: Span, message: Seq<char> },
}

/// The offset by which parts are ordered.
pub open spec fn key_of(part: PartView) -> int {
    part.span.start().byte() as int
}

/// Where a part with the key `key` goes into `sorted`: behind the parts
/// whose keys are not above it.
pub open spec fn insert_pos(sorted: Seq<PartView>, key: int) -> int
    decreases sorted.len(),
{
    if sorted.len() == 0 {
        0
    } else if key_of(sorted.last()) <= key {
        sorted.len() as int
    } else {
        insert_pos(sorted.drop_last(), key)
    }
}

/// The parts in ascending order of the start of their spans; parts that
/// start at the same offset keep their order.
pub open spec fn sort_parts(parts: Seq<PartView>) -> Seq<PartView>
    decreases parts.len(),
{
    if parts.len() == 0 {
        Seq::empty()
    } else {
        let sorted = sort_parts(parts.drop_last());
        sorted.insert(insert_pos(sorted, key_of(parts.last())), parts.last())
    }
}

/// The span of `part` lies on one line of `source`.
pub open spec fn part_renderable_in(source: Source, part: PartView) -> bool {
    let bytes = source.bytes();
    &&& source.valid_span(part.span)
    &&& line_of_byte(bytes, key_of(part)) == line_of_byte(bytes, part.span.end().byte() as int)
    &&& line_of_byte(bytes, key_of(part)) <= line_ends(bytes).len()
}

/// The span of `part` lies on one line of its source, which `sm` holds.
pub open spec fn part_renderable(sm: SourceMap, part: PartView) -> bool {
    &&& sm.contains_id(part.span.src_id())
    &&& part_renderable_in(sm.source_of(part.span.src_id()), part)
}

/// Every part of `diagnostic` can be rendered, and lies in `source`.
pub open spec fn renderable_in(source: Source, diagnostic: DiagnosticView) -> bool {
    forall|i: int|
        0 <= i < diagnostic.parts.len() ==> part_renderable_in(
            source,
            #[trigger] diagnostic.parts[i],
        )
}

/// Every part of `diagnostic` can be rendered.
pub open spec fn renderable(sm: SourceMap, diagnostic: DiagnosticView) -> bool {
    forall|i: int|
        0 <= i < diagnostic.parts.len() ==> part_renderable(sm, #[trigger] diagnostic.parts[i])
}

/// A diagnostic that can be rendered in a source can be rendered with any
/// map that holds this source.
pub proof fn lemma_renderable_in_map(sm: SourceMap, source: Source, diagnostic: DiagnosticView)
    requires
        renderable_in(source, diagnostic),
        sm.contains_id(source.id()),
        sm.source_of(source.id()) == source,
    ensures
        renderable(sm, diagnostic),
{
    broadcast use group_span_lemmas;

    assert forall|i: int| 0 <= i < diagnostic.parts.len() implies part_renderable(
        sm,
        #[trigger] diagnostic.parts[i],
    ) by {
        assert(part_renderable_in(source, diagnostic.parts[i]));
    }
}

/// The lines for `part`.
pub open spec fn part_lines(sm: SourceMap, part: PartView) -> Seq<RenderLine> {
    let source = sm.source_of(part.span.src_id());
    seq![
        RenderLine::SourcePos(part.span.start()),
        RenderLine::Padding,
        RenderLine::CodeLine {
            source,
            line: line_of_byte(source.bytes(), key_of(part)) as nat,
        },
        RenderLine::Highlight { span: part.span, message: part.help },
        RenderLine::Padding,
    ]
}

/// The lines for `parts`, part after part.
pub open spec fn lines_of(sm: SourceMap, parts: Seq<PartView>) -> Seq<RenderLine>
    decreases parts.len(),
{
    if parts.len() == 0 {
        Seq::empty()
    } else {
        lines_of(sm, parts.drop_last()) + part_lines(sm, parts.last())
    }
}

/// `lines` without the padding lines that directly follow a highlight.
pub open spec fn collapse(lines: Seq<RenderLine>) -> Seq<RenderLine>
    decreases lines.len(),
{
    if lines.len() == 0 {
        Seq::empty()
    } else if lines.last() is Padding && lines.len() >= 2 && lines[lines.len() - 2] is Highlight {
        collapse(lines.drop_last())
    } else {
        collapse(lines.drop_last()).push(lines.last())
    }
}

/// The width that `line` needs in the gutter: that of its line number.
pub open spec fn line_gutter_width(line: RenderLine) -> nat {
    match line {
        RenderLine::CodeLine { line, .. } => decimal(line).len(),
        _ => 0,
    }
}

/// The largest width that any of `lines` needs in the gutter.
pub open spec fn gutter_width(lines: Seq<RenderLine>) -> nat
    decreases lines.len(),
{
    if lines.len() == 0 {
        0
    } else {
        let rest = gutter_width(lines.drop_last());
        let last = line_gutter_width(lines.last());
        if last > rest {
            last
        } else {
            rest
        }
    }
}

/// The first line: the error label and the message.
pub open spec fn error_line(style: Style, msg: Seq<char>) -> Seq<char> {
    style.error_accent + style.bold + "error"@ + style.reset + style.bold + ": "@ + msg
        + style.reset + "\n"@
}

/// The line that names file, line and column.
pub open spec fn source_pos_line(
    style: Style,
    gw: nat,
    filename: Seq<char>,
    line: nat,
    col: nat,
) -> Seq<char> {
    repeat(' ', gw) + style.structural_accent + style.bold + "-->"@ + style.reset + " "@
        + filename + ":"@ + decimal(line) + ":"@ + decimal(col) + "\n"@
}

/// An empty line of the gutter.
pub open spec fn padding_line(style: Style, gw: nat) -> Seq<char> {
    repeat(' ', gw) + style.structural_accent + style.bold + " |"@ + style.reset + "\n"@
}

/// A line of source text behind its number, which is aligned to the right
/// of the gutter.
pub open spec fn code_line(style: Style, gw: nat, line: nat, text: Seq<char>) -> Seq<char> {
    style.structural_accent + style.bold + repeat(' ', (gw - decimal(line).len()) as nat)
        + decimal(line) + " |"@ + style.reset + " "@ + text + "\n"@
}

/// The line of `len` carets, `offset` columns into the text, and the
/// annotation.
pub open spec fn highlight_line(
    style: Style,
    gw: nat,
    offset: nat,
    len: nat,
    msg: Seq<char>,
) -> Seq<char> {
    repeat(' ', gw) + style.structural_accent + style.bold + " | "@ + style.reset + repeat(
        ' ',
        offset,
    ) + style.error_accent + style.bold + repeat('^', len) + " "@ + msg + style.reset + "\n"@
}

/// The span of the 1-indexed line `line` of `source`, without its newline.
pub open spec fn span_of_line(source: Source, line: nat) -> Span {
    Span::at(
        source.id(),
        line_start(source.bytes(), line as int) as usize,
        line_ends(source.bytes())[line - 1] as usize,
    )
}

/// The text of `line`, with a gutter of `gw` columns.
pub open spec fn line_text(style: Style, sm: SourceMap, gw: nat, line: RenderLine) -> Seq<char> {
    match line {
        RenderLine::SourcePos(pos) => {
            let source = sm.source_of(pos.src_id());
            source_pos_line(
                style,
                gw,
                source.spec_filename(),
                line_of_byte(source.bytes(), pos.byte() as int) as nat,
                col_of_byte(source.bytes(), pos.byte() as int) as nat,
            )
        },
        RenderLine::Padding => padding_line(style, gw),
        RenderLine::CodeLine { source, line } => code_line(
            style,
            gw,
            line,
            source.text_of(span_of_line(source, line)),
        ),
        RenderLine::Highlight { span, message } => {
            let source = sm.source_of(span.src_id());
            highlight_line(
                style,
                gw,
                (col_of_byte(source.bytes(), span.start().byte() as int) - 1) as nat,
                source.text_of(span).len(),
                message,
            )
        },
    }
}

/// The text of `lines`, line after line.
pub open spec fn lines_text(
    style: Style,
    sm: SourceMap,
    gw: nat,
    lines: Seq<RenderLine>,
) -> Seq<char>
    decreases lines.len(),
{
    if lines.len() == 0 {
        Seq::empty()
    } else {
        lines_text(style, sm, gw, lines.drop_last()) + line_text(style, sm, gw, lines.last())
    }
}

/// The lines of a rendered diagnostic, after its first.
pub open spec fn rendered_lines(sm: SourceMap, diagnostic: DiagnosticView) -> Seq<RenderLine> {
    collapse(lines_of(sm, sort_parts(diagnostic.parts)))
}

/// The text of a rendered diagnostic.
pub open spec fn rendered(style: Style, sm: SourceMap, diagnostic: DiagnosticView) -> Seq<char> {
    let lines = rendered_lines(sm, diagnostic);
    error_line(style, diagnostic.msg) + lines_text(style, sm, gutter_width(lines), lines)
}


/// Inserting a part keeps what holds of every part.
proof fn lemma_sort_parts_renderable(sm: SourceMap, parts: Seq<PartView>)
    requires
        forall|i: int| 0 <= i < parts.len() ==> part_renderable(sm, #[trigger] parts[i]),
    ensures
        sort_parts(parts).len() == parts.len(),
        forall|i: int|
            0 <= i < parts.len() ==> part_renderable(sm, #[trigger] sort_parts(parts)[i]),
    decreases parts.len(),
{
    if parts.len() > 0 {
        let init = parts.drop_last();
        assert forall|i: int| 0 <= i < init.len() implies part_renderable(
            sm,
            #[trigger] init[i],
        ) by {
            assert(init[i] == parts[i]);
        }
        lemma_sort_parts_renderable(sm, init);
        let sorted = sort_parts(init);
        lemma_insert_pos(sorted, key_of(parts.last()));
        let pos = insert_pos(sorted, key_of(parts.last()));
        assert forall|i: int| 0 <= i < parts.len() implies part_renderable(
            sm,
            #[trigger] sort_parts(parts)[i],
        ) by {
            if i < pos {
                assert(sort_parts(parts)[i] == sorted[i]);
            } else if i == pos {
                assert(sort_parts(parts)[i] == parts.last());
            } else {
                assert(sort_parts(parts)[i] == sorted[i - 1]);
            }
        }
    }
}

/// The place of insertion lies within the sequence.
pub proof fn lemma_insert_pos(sorted: Seq<PartView>, key: int)
    ensures
        0 <= insert_pos(sorted, key) <= sorted.len(),
    decreases sorted.len(),
{
    if sorted.len() > 0 && key_of(sorted.last()) > key {
        lemma_insert_pos(sorted.drop_last(), key);
    }
}

/// The keys of `parts` never decrease.
pub open spec fn ascending(parts: Seq<PartView>) -> bool {
    forall|i: int, j: int| 0 <= i < j < parts.len() ==> key_of(parts[i]) <= key_of(parts[j])
}

/// In parts whose keys never decrease, the keys before the place of
/// insertion are not above the key, and those from it on are.
pub proof fn lemma_insert_pos_splits(sorted: Seq<PartView>, key: int)
    requires
        ascending(sorted),
    ensures
        0 <= insert_pos(sorted, key) <= sorted.len(),
        forall|i: int| 0 <= i < insert_pos(sorted, key) ==> key_of(sorted[i]) <= key,
        forall|i: int| insert_pos(sorted, key) <= i < sorted.len() ==> key_of(sorted[i]) > key,
    decreases sorted.len(),
{
    if sorted.len() > 0 {
        if key_of(sorted.last()) <= key {
            assert forall|i: int| 0 <= i < sorted.len() implies key_of(sorted[i]) <= key by {
                if i < sorted.len() - 1 {
                    assert(key_of(sorted[i]) <= key_of(sorted[sorted.len() - 1]));
                }
            }
        } else {
            let init = sorted.drop_last();
            assert forall|i: int, j: int| 0 <= i < j < init.len() implies key_of(init[i])
                <= key_of(init[j]) by {
                assert(init[i] == sorted[i] && init[j] == sorted[j]);
            }
            lemma_insert_pos_splits(init, key);
            assert forall|i: int| 0 <= i < insert_pos(sorted, key) implies key_of(sorted[i])
                <= key by {
                assert(init[i] == sorted[i]);
            }
            assert forall|i: int| insert_pos(sorted, key) <= i < sorted.len() implies key_of(
                sorted[i],
            ) > key by {
                if i < sorted.len() - 1 {
                    assert(init[i] == sorted[i]);
                }
            }
        }
    }
}

/// The parts of `parts` whose key is `key`, in their order.
pub open spec fn with_key(parts: Seq<PartView>, key: int) -> Seq<PartView>
    decreases parts.len(),
{
    if parts.len() == 0 {
        Seq::empty()
    } else if key_of(parts.last()) == key {
        with_key(parts.drop_last(), key).push(parts.last())
    } else {
        with_key(parts.drop_last(), key)
    }
}

/// The parts with a key among parts that follow one another are those
/// among the first, then those among the second.
pub proof fn lemma_with_key_add(first: Seq<PartView>, second: Seq<PartView>, key: int)
    ensures
        with_key(first + second, key) == with_key(first, key) + with_key(second, key),
    decreases second.len(),
{
    if second.len() == 0 {
        assert(first + second =~= first);
        assert(with_key(first, key) + with_key(second, key) =~= with_key(first, key));
    } else {
        let init = second.drop_last();
        assert((first + second).drop_last() =~= first + init);
        lemma_with_key_add(first, init, key);
        if key_of(second.last()) == key {
            assert((with_key(first, key) + with_key(init, key)).push(second.last())
                =~= with_key(first, key) + with_key(init, key).push(second.last()));
        }
    }
}

/// Among parts of other keys there is none with the key.
pub proof fn lemma_with_key_none(parts: Seq<PartView>, key: int)
    requires
        forall|i: int| 0 <= i < parts.len() ==> key_of(parts[i]) != key,
    ensures
        with_key(parts, key) == Seq::<PartView>::empty(),
    decreases parts.len(),
{
    if parts.len() > 0 {
        let init = parts.drop_last();
        assert forall|i: int| 0 <= i < init.len() implies key_of(init[i]) != key by {
            assert(init[i] == parts[i]);
        }
        lemma_with_key_none(init, key);
    }
}

/// Whether a single part has the key.
pub proof fn lemma_with_key_single(part: PartView, key: int)
    ensures
        with_key(seq![part], key) == if key_of(part) == key {
            seq![part]
        } else {
            Seq::<PartView>::empty()
        },
{
    let single = seq![part];
    assert(single.drop_last() =~= Seq::<PartView>::empty());
    assert(with_key(single.drop_last(), key) =~= Seq::<PartView>::empty());
    assert(Seq::<PartView>::empty().push(part) =~= single);
}

/// The parts are rendered in ascending order of the start of their spans,
/// whatever the order in which they were added, and parts that start at
/// the same offset in the order in which they were added: `sort_parts`
/// gives the same parts, each as often as it was added; their keys never
/// decrease; and those of any one key follow one another as in `parts`.
pub proof fn lemma_sort_parts(parts: Seq<PartView>)
    ensures
        ascending(sort_parts(parts)),
        sort_parts(parts).to_multiset() == parts.to_multiset(),
        sort_parts(parts).len() == parts.len(),
        forall|key: int| with_key(sort_parts(parts), key) == with_key(parts, key),
    decreases parts.len(),
{
    broadcast use vstd::seq_lib::group_to_multiset_ensures;

    if parts.len() == 0 {
        assert(parts =~= Seq::empty());
    } else {
        let init = parts.drop_last();
        let last = parts.last();
        lemma_sort_parts(init);
        let sorted = sort_parts(init);
        let pos = insert_pos(sorted, key_of(last));
        lemma_insert_pos_splits(sorted, key_of(last));
        let result = sorted.insert(pos, last);
        assert forall|i: int, j: int| 0 <= i < j < result.len() implies key_of(result[i])
            <= key_of(result[j]) by {
            if j < pos {
                assert(result[i] == sorted[i] && result[j] == sorted[j]);
            } else if j == pos {
                assert(result[i] == sorted[i]);
            } else if i < pos {
                assert(result[i] == sorted[i] && result[j] == sorted[j - 1]);
            } else if i == pos {
                assert(result[j] == sorted[j - 1]);
            } else {
                assert(result[i] == sorted[i - 1] && result[j] == sorted[j - 1]);
            }
        }
        assert(result.remove(pos) =~= sorted);
        assert(result[pos] == last);
        assert(result.to_multiset() =~= sorted.to_multiset().insert(last));
        assert(parts =~= init.push(last));
        assert(parts.to_multiset() =~= init.to_multiset().insert(last));

        let before = sorted.take(pos);
        let after = sorted.skip(pos);
        assert(sorted =~= before + after);
        assert(result =~= before + seq![last] + after);
        assert forall|key: int| with_key(result, key) == with_key(parts, key) by {
            let kept_before = with_key(before, key);
            let kept_after = with_key(after, key);
            let kept_last = with_key(seq![last], key);
            lemma_with_key_add(before, after, key);
            lemma_with_key_add(before + seq![last], after, key);
            lemma_with_key_add(before, seq![last], key);
            lemma_with_key_single(last, key);
            assert(with_key(sorted, key) == kept_before + kept_after);
            assert(with_key(result, key) == kept_before + kept_last + kept_after);
            assert(with_key(init, key) == kept_before + kept_after);
            if key_of(last) == key {
                assert forall|i: int| 0 <= i < after.len() implies key_of(after[i]) != key by {
                    assert(after[i] == sorted[pos + i]);
                }
                lemma_with_key_none(after, key);
                assert(with_key(parts, key) == with_key(init, key).push(last));
                assert(kept_before + seq![last] + Seq::<PartView>::empty() =~= (kept_before
                    + Seq::<PartView>::empty()).push(last));
            } else {
                assert(with_key(parts, key) == with_key(init, key));
                assert(kept_before + Seq::<PartView>::empty() + kept_after =~= kept_before
                    + kept_after);
            }
        }
    }
}

/// The lines that are shown for `part`: where it is, an empty line of the
/// gutter, the line of source text, and the carets with the annotation.
pub open spec fn shown_part_lines(sm: SourceMap, part: PartView) -> Seq<RenderLine> {
    part_lines(sm, part).drop_last()
}

/// The lines that are shown for `parts`, part after part.
pub open spec fn shown_lines(sm: SourceMap, parts: Seq<PartView>) -> Seq<RenderLine>
    decreases parts.len(),
{
    if parts.len() == 0 {
        Seq::empty()
    } else {
        shown_lines(sm, parts.drop_last()) + shown_part_lines(sm, parts.last())
    }
}

/// Of the five lines of each part four are shown: the padding that ends a
/// part follows its highlight and is left out, so that no empty line of
/// the gutter stands between one part and the next.
pub proof fn lemma_collapse_lines(sm: SourceMap, parts: Seq<PartView>)
    ensures
        collapse(lines_of(sm, parts)) == shown_lines(sm, parts),
        lines_of(sm, parts).len() == 5 * parts.len(),
        shown_lines(sm, parts).len() == 4 * parts.len(),
    decreases parts.len(),
{
    if parts.len() > 0 {
        let init = lines_of(sm, parts.drop_last());
        let last = part_lines(sm, parts.last());
        let all = init + last;
        lemma_collapse_lines(sm, parts.drop_last());
        let shown = shown_lines(sm, parts.drop_last());
        let all4 = all.drop_last();
        let all3 = all4.drop_last();
        let all2 = all3.drop_last();
        let all1 = all2.drop_last();
        assert(all1.drop_last() =~= init);
        assert(all.last() == last[4] && all4.last() == last[3] && all3.last() == last[2]);
        assert(all2.last() == last[1] && all1.last() == last[0]);
        assert(all[all.len() - 2] == last[3]);
        assert(all4[all4.len() - 2] == last[2]);
        assert(all3[all3.len() - 2] == last[1]);
        assert(all2[all2.len() - 2] == last[0]);
        assert(collapse(all1) == shown.push(last[0]));
        assert(collapse(all2) == shown.push(last[0]).push(last[1]));
        assert(collapse(all3) == shown.push(last[0]).push(last[1]).push(last[2]));
        assert(collapse(all4) == shown.push(last[0]).push(last[1]).push(last[2]).push(last[3]));
        assert(collapse(all) == collapse(all4));
        assert(shown.push(last[0]).push(last[1]).push(last[2]).push(last[3]) =~= shown
            + last.drop_last());
    }
}

/// No line needs more of the gutter than its width.
pub proof fn lemma_gutter_width(lines: Seq<RenderLine>, i: int)
    requires
        0 <= i < lines.len(),
    ensures
        line_gutter_width(lines[i]) <= gutter_width(lines),
    decreases lines.len(),
{
    if i < lines.len() - 1 {
        lemma_gutter_width(lines.drop_last(), i);
    }
}

/// What a line needs to be written: its source is in the map, and its
/// span lies on one line of it.
pub open spec fn line_renderable(sm: SourceMap, line: RenderLine) -> bool {
    match line {
        RenderLine::SourcePos(pos) => sm.contains_id(pos.src_id()),
        RenderLine::Padding => true,
        RenderLine::CodeLine { source, line } => 1 <= line <= line_ends(source.bytes()).len(),
        RenderLine::Highlight { span, message } => {
            let source = sm.source_of(span.src_id());
            &&& sm.contains_id(span.src_id())
            &&& source.valid_span(span)
            &&& line_of_byte(source.bytes(), span.start().byte() as int) == line_of_byte(
                source.bytes(),
                span.end().byte() as int,
            )
        },
    }
}

#[derive(Debug, Clone, Copy)]
enum DiagnosticRenderLine<'a> {
    SourcePos(SourcePos),
    Padding,
    CodeLine { source: &'a Source, line: usize },
    Highlight { span: Span, message: &'a str },
}

impl<'a> View for DiagnosticRenderLine<'a> {
    type V = RenderLine;

    closed spec fn view(&self) -> RenderLine {
        match *self {
            DiagnosticRenderLine::SourcePos(pos) => RenderLine::SourcePos(pos),
            DiagnosticRenderLine::Padding => RenderLine::Padding,
            DiagnosticRenderLine::CodeLine { source, line } => RenderLine::CodeLine {
                source: *source,
                line: line as nat,
            },
            DiagnosticRenderLine::Highlight { span, message } => RenderLine::Highlight {
                span,
                message: message@,
            },
        }
    }
}

/// The models of a sequence of lines.
spec fn line_views(lines: Seq<DiagnosticRenderLine>) -> Seq<RenderLine> {
    lines.map_values(|line: DiagnosticRenderLine| line@)
}

impl<'a> DiagnosticRenderLine<'a> {
    /// Whether this is an empty line of the gutter.
    fn is_padding(&self) -> (b: bool)
        ensures
            b == (self@ is Padding),
    {
        matches!(self, DiagnosticRenderLine::Padding)
    }

    /// Whether a padding line that follows this line is left out.
    fn can_collapse_padding(&self) -> (b: bool)
        ensures
            b == (self@ is Highlight),
    {
        matches!(self, DiagnosticRenderLine::Highlight { .. })
    }

    /// The width that this line needs in the gutter.
    fn gutter_width(&self) -> (width: usize)
        ensures
            width == line_gutter_width(self@),
    {
        match self {
            DiagnosticRenderLine::SourcePos(_) => 0,
            DiagnosticRenderLine::Padding => 0,
            DiagnosticRenderLine::CodeLine { line, .. } => decimal_len(*line),
            DiagnosticRenderLine::Highlight { .. } => 0,
        }
    }
}

/// Writes the lines of a diagnostic into a buffer, in one style.
pub struct DiagWriter {
    out: String,
    bold: &'static str,
    error_accent: &'static str,
    structural_accent: &'static str,
    reset: &'static str,
}

impl DiagWriter {
    /// What has been written.
    pub closed spec fn written(&self) -> Seq<char> {
        self.out@
    }

    /// The style of what is written.
    pub closed spec fn style(&self) -> Style {
        Style {
            bold: self.bold@,
            error_accent: self.error_accent@,
            structural_accent: self.structural_accent@,
            reset: self.reset@,
        }
    }

    /// A writer that goes on after `out`, with ANSI styling.
    pub fn new_ansi(out: String) -> (writer: Self)
        ensures
            writer.written() == out@,
            writer.style() == ansi_style(),
    {
        Self {
            out,
            bold: "\x1b[1m",
            error_accent: "\x1b[91m",
            structural_accent: "\x1b[94m",
            reset: "\x1b[0m",
        }
    }

    /// A writer that goes on after `out`, without styling.
    pub fn new_plain(out: String) -> (writer: Self)
        ensures
            writer.written() == out@,
            writer.style() == plain_style(),
    {
        proof {
            reveal_strlit("");
        }
        let writer = Self { out, bold: "", error_accent: "", structural_accent: "", reset: "" };
        assert(""@ =~= Seq::<char>::empty());
        writer
    }

    /// All that has been written.
    pub fn finish(self) -> (out: String)
        ensures
            out@ == self.written(),
    {
        self.out
    }

    /// Writes the first line: the error label and the message.
    fn write_error(&mut self, msg: &str)
        ensures
            final(self).style() == old(self).style(),
            final(self).written() == old(self).written() + error_line(old(self).style(), msg@),
    {
        self.out.append(self.error_accent);
        self.out.append(self.bold);
        self.out.append("error");
        self.out.append(self.reset);
        self.out.append(self.bold);
        self.out.append(": ");
        self.out.append(msg);
        self.out.append(self.reset);
        self.out.append("\n");
        assert(self.written() =~= old(self).written() + error_line(old(self).style(), msg@));
    }

    /// Writes the line that names file, line and column of `pos`.
    fn write_source_pos(&mut self, pos: SourcePos, source: &Source, gw: usize)
        requires
            pos.src_id() == source.id(),
        ensures
            final(self).style() == old(self).style(),
            final(self).written() == old(self).written() + source_pos_line(
                old(self).style(),
                gw as nat,
                source.spec_filename(),
                line_of_byte(source.bytes(), pos.byte() as int) as nat,
                col_of_byte(source.bytes(), pos.byte() as int) as nat,
            ),
    {
        proof {
            reveal_strlit(" ");
        }
        push_repeat(&mut self.out, " ", gw);
        self.out.append(self.structural_accent);
        self.out.append(self.bold);
        self.out.append("-->");
        self.out.append(self.reset);
        self.out.append(" ");
        self.out.append(source.filename());
        self.out.append(":");
        push_decimal(&mut self.out, source.line_of(pos));
        self.out.append(":");
        push_decimal(&mut self.out, source.col_of(pos));
        self.out.append("\n");
        assert(self.written() =~= old(self).written() + source_pos_line(
            old(self).style(),
            gw as nat,
            source.spec_filename(),
            line_of_byte(source.bytes(), pos.byte() as int) as nat,
            col_of_byte(source.bytes(), pos.byte() as int) as nat,
        ));
    }

    /// Writes an empty line of the gutter.
    fn write_padding(&mut self, gw: usize)
        ensures
            final(self).style() == old(self).style(),
            final(self).written() == old(self).written() + padding_line(
                old(self).style(),
                gw as nat,
            ),
    {
        proof {
            reveal_strlit(" ");
        }
        push_repeat(&mut self.out, " ", gw);
        self.out.append(self.structural_accent);
        self.out.append(self.bold);
        self.out.append(" |");
        self.out.append(self.reset);
        self.out.append("\n");
        assert(self.written() =~= old(self).written() + padding_line(
            old(self).style(),
            gw as nat,
        ));
    }

    /// Writes the line `line` of `source` behind its number.
    fn write_code(&mut self, source: &Source, line: usize, gw: usize)
        requires
            1 <= line <= line_ends(source.bytes()).len(),
            decimal(line as nat).len() <= gw,
        ensures
            final(self).style() == old(self).style(),
            final(self).written() == old(self).written() + code_line(
                old(self).style(),
                gw as nat,
                line as nat,
                source.text_of(span_of_line(*source, line as nat)),
            ),
    {
        proof {
            reveal_strlit(" ");
        }
        let line_span = source.span_of_line(line);
        let text = source.text_of_span(line_span);
        self.out.append(self.structural_accent);
        self.out.append(self.bold);
        push_repeat(&mut self.out, " ", gw - decimal_len(line));
        push_decimal(&mut self.out, line);
        self.out.append(" |");
        self.out.append(self.reset);
        self.out.append(" ");
        self.out.append(text);
        self.out.append("\n");
        assert(self.written() =~= old(self).written() + code_line(
            old(self).style(),
            gw as nat,
            line as nat,
            source.text_of(span_of_line(*source, line as nat)),
        ));
    }

    /// Writes the carets under `span`, and the annotation.
    fn write_highlight(&mut self, source: &Source, span: Span, gw: usize, msg: &str)
        requires
            source.valid_span(span),
            line_of_byte(source.bytes(), span.start().byte() as int) == line_of_byte(
                source.bytes(),
                span.end().byte() as int,
            ),
        ensures
            final(self).style() == old(self).style(),
            final(self).written() == old(self).written() + highlight_line(
                old(self).style(),
                gw as nat,
                (col_of_byte(source.bytes(), span.start().byte() as int) - 1) as nat,
                source.text_of(span).len(),
                msg@,
            ),
    {
        broadcast use group_span_lemmas;

        proof {
            reveal_strlit(" ");
            reveal_strlit("^");
            lemma_line_and_col_positive(source.bytes(), span.start().byte() as int);
        }
        let offset: usize = source.col_of(span.start()) - 1;

        // One caret for each character of the text.
        let len: usize = source.text_of_span(span).unicode_len();

        push_repeat(&mut self.out, " ", gw);
        self.out.append(self.structural_accent);
        self.out.append(self.bold);
        self.out.append(" | ");
        self.out.append(self.reset);
        push_repeat(&mut self.out, " ", offset);
        self.out.append(self.error_accent);
        self.out.append(self.bold);
        push_repeat(&mut self.out, "^", len);
        self.out.append(" ");
        self.out.append(msg);
        self.out.append(self.reset);
        self.out.append("\n");
        assert(self.written() =~= old(self).written() + highlight_line(
            old(self).style(),
            gw as nat,
            (col_of_byte(source.bytes(), span.start().byte() as int) - 1) as nat,
            source.text_of(span).len(),
            msg@,
        ));
    }
}


/// The parts of `diag`, arranged by their start position.
fn sorted_parts<'a>(diag: &'a Diagnostic) -> (parts: Vec<&'a DiagnosticPart>)
    ensures
        part_views(parts@) == sort_parts(diag@.parts),
{
    let mut parts: Vec<&DiagnosticPart> = Vec::new();
    let mut i: usize = 0;
    assert(part_views(parts@) =~= sort_parts(diag@.parts.take(0)));
    while i < diag.part_count()
        invariant
            i <= diag@.parts.len(),
            part_views(parts@) == sort_parts(diag@.parts.take(i as int)),
        decreases diag@.parts.len() - i,
    {
        let part = diag.part(i);
        let key: usize = part.span().start().byte();
        let ghost sorted = part_views(parts@);
        let mut j: usize = parts.len();
        assert(sorted.take(j as int) =~= sorted);
        loop
            invariant
                j <= parts@.len(),
                sorted == part_views(parts@),
                insert_pos(sorted, key as int) == insert_pos(sorted.take(j as int), key as int),
            ensures
                insert_pos(sorted, key as int) == j,
            decreases j,
        {
            if j == 0 {
                break ;
            }
            proof {
                assert(sorted.take(j as int).drop_last() =~= sorted.take(j - 1));
                assert(sorted.take(j as int).last() == parts@[j - 1]@);
            }
            if parts[j - 1].span().start().byte() <= key {
                break ;
            }
            j -= 1;
        }
        parts.insert(j, part);
        proof {
            assert(diag@.parts.take(i + 1).drop_last() =~= diag@.parts.take(i as int));
            assert(diag@.parts.take(i + 1).last() == part@);
            assert(part_views(parts@) =~= sorted.insert(j as int, part@));
        }
        i += 1;
    }
    proof {
        assert(diag@.parts.take(i as int) =~= diag@.parts);
    }
    parts
}

/// Whether `diag` can be rendered with `sm`: every part lies on one line of
/// a source of `sm`.
pub fn is_renderable(diag: &Diagnostic, sm: &SourceMap) -> (b: bool)
    ensures
        b == renderable(*sm, diag@),
{
    let mut i: usize = 0;
    while i < diag.part_count()
        invariant
            i <= diag@.parts.len(),
            forall|k: int| 0 <= k < i ==> part_renderable(*sm, #[trigger] diag@.parts[k]),
        decreases diag@.parts.len() - i,
    {
        broadcast use group_span_lemmas;

        let span = diag.part(i).span();
        if !sm.contains(span.src_id()) {
            assert(!part_renderable(*sm, diag@.parts[i as int]));
            return false;
        }
        let source = sm.get_source(span.src_id());
        if !source.contains_span(span) {
            assert(!part_renderable(*sm, diag@.parts[i as int]));
            return false;
        }
        let line: usize = source.line_of(span.start());
        if line != source.line_of(span.end()) || line > source.line_count() {
            assert(!part_renderable(*sm, diag@.parts[i as int]));
            return false;
        }
        i += 1;
    }
    true
}

/// Writes `diag` to `wr`: the message, then for each part, in the order of
/// their start positions, where it is, the line of source text, and the
/// carets and annotation under its span.
pub fn render(wr: &mut DiagWriter, diag: &Diagnostic, sm: &SourceMap)
    requires
        renderable(*sm, diag@),
    ensures
        final(wr).style() == old(wr).style(),
        final(wr).written() == old(wr).written() + rendered(old(wr).style(), *sm, diag@),
{
    broadcast use group_span_lemmas;

    let ghost style = wr.style();
    let ghost start = wr.written();

    // Arrange the parts by their start position.
    let parts = sorted_parts(diag);
    let ghost sorted = part_views(parts@);
    proof {
        lemma_sort_parts_renderable(*sm, diag@.parts);
    }

    // First we assemble all the lines to be rendered.
    let mut all_lines: Vec<DiagnosticRenderLine> = Vec::new();
    let mut i: usize = 0;
    proof {
        assert(line_views(all_lines@) =~= lines_of(*sm, sorted.take(0)));
    }
    while i < parts.len()
        invariant
            i <= parts@.len(),
            sorted == part_views(parts@),
            forall|k: int| 0 <= k < sorted.len() ==> part_renderable(*sm, #[trigger] sorted[k]),
            line_views(all_lines@) == lines_of(*sm, sorted.take(i as int)),
            forall|k: int|
                0 <= k < all_lines@.len() ==> line_renderable(*sm, (#[trigger] all_lines@[k])@),
        decreases parts@.len() - i,
    {
        broadcast use group_span_lemmas;

        let part = parts[i];
        let ghost before = line_views(all_lines@);
        proof {
            assert(sorted[i as int] == part@);
            assert(part_renderable(*sm, part@));
            assert(sorted.take(i + 1).drop_last() =~= sorted.take(i as int));
            assert(sorted.take(i + 1).last() == part@);
        }
        let source = sm.get_source(part.span().src_id());
        let line: usize = source.line_of(part.span().start());
        let ghost old_lines = all_lines@;

        all_lines.push(DiagnosticRenderLine::SourcePos(part.span().start()));
        all_lines.push(DiagnosticRenderLine::Padding);
        all_lines.push(DiagnosticRenderLine::CodeLine { source, line });
        all_lines.push(DiagnosticRenderLine::Highlight { span: part.span(), message: part.help() });
        all_lines.push(DiagnosticRenderLine::Padding);
        proof {
            assert(line_views(all_lines@) =~= before + part_lines(*sm, part@));
            lemma_line_and_col_positive(source.bytes(), key_of(part@));
            assert forall|k: int| 0 <= k < all_lines@.len() implies line_renderable(
                *sm,
                (#[trigger] all_lines@[k])@,
            ) by {
                if k < old_lines.len() {
                    assert(all_lines@[k] == old_lines[k]);
                }
            }
        }
        i += 1;
    }
    proof {
        assert(sorted.take(i as int) =~= sorted);
    }

    // A padding line that follows a highlight is left out.
    let mut lines: Vec<DiagnosticRenderLine> = Vec::new();
    let mut i: usize = 0;
    let ghost all_views = line_views(all_lines@);
    proof {
        assert(line_views(lines@) =~= collapse(all_views.take(0)));
    }
    while i < all_lines.len()
        invariant
            i <= all_lines@.len(),
            all_views == line_views(all_lines@),
            forall|k: int|
                0 <= k < all_lines@.len() ==> line_renderable(*sm, (#[trigger] all_lines@[k])@),
            line_views(lines@) == collapse(all_views.take(i as int)),
            forall|k: int| 0 <= k < lines@.len() ==> line_renderable(*sm, (#[trigger] lines@[k])@),
        decreases all_lines@.len() - i,
    {
        let ghost kept = line_views(lines@);
        proof {
            assert(all_views.take(i + 1).drop_last() =~= all_views.take(i as int));
            assert(all_views.take(i + 1).last() == all_lines@[i as int]@);
            if i > 0 {
                assert(all_views.take(i + 1)[i - 1] == all_lines@[i - 1]@);
            }
        }
        if all_lines[i].is_padding() && i > 0 && all_lines[i - 1].can_collapse_padding() {
        } else {
            lines.push(all_lines[i]);
            proof {
                assert(line_views(lines@) =~= kept.push(all_lines@[i as int]@));
            }
        }
        i += 1;
    }
    let ghost views = line_views(lines@);
    proof {
        assert(all_views.take(i as int) =~= all_views);
        assert(views == rendered_lines(*sm, diag@));
    }

    // Now we can perform the actual rendering.
    wr.write_error(diag.msg());

    let mut gutter_width: usize = 0;
    let mut i: usize = 0;
    proof {
        assert(views.take(0) =~= Seq::empty());
    }
    while i < lines.len()
        invariant
            i <= lines@.len(),
            views == line_views(lines@),
            gutter_width == self::gutter_width(views.take(i as int)),
        decreases lines@.len() - i,
    {
        proof {
            assert(views.take(i + 1).drop_last() =~= views.take(i as int));
            assert(views.take(i + 1).last() == lines@[i as int]@);
        }
        let width: usize = lines[i].gutter_width();
        if width > gutter_width {
            gutter_width = width;
        }
        i += 1;
    }
    proof {
        assert(views.take(i as int) =~= views);
    }

    let ghost head = start + error_line(style, diag@.msg);
    let mut i: usize = 0;
    proof {
        assert(views.take(0) =~= Seq::empty());
        assert(wr.written() =~= head + lines_text(style, *sm, gutter_width as nat, views.take(0)));
    }
    while i < lines.len()
        invariant
            i <= lines@.len(),
            views == line_views(lines@),
            gutter_width == self::gutter_width(views),
            forall|k: int| 0 <= k < lines@.len() ==> line_renderable(*sm, (#[trigger] lines@[k])@),
            wr.style() == style,
            wr.written() == head + lines_text(
                style,
                *sm,
                gutter_width as nat,
                views.take(i as int),
            ),
        decreases lines@.len() - i,
    {
        broadcast use group_span_lemmas;

        let ghost written = wr.written();
        proof {
            assert(views.take(i + 1).drop_last() =~= views.take(i as int));
            assert(views.take(i + 1).last() == lines@[i as int]@);
            assert(line_renderable(*sm, lines@[i as int]@));
            lemma_gutter_width(views, i as int);
        }
        match lines[i] {
            DiagnosticRenderLine::SourcePos(pos) => {
                let source = sm.get_source(pos.src_id());
                wr.write_source_pos(pos, source, gutter_width);
            },
            DiagnosticRenderLine::Padding => {
                wr.write_padding(gutter_width);
            },
            DiagnosticRenderLine::CodeLine { source, line } => {
                wr.write_code(source, line, gutter_width);
            },
            DiagnosticRenderLine::Highlight { span, message } => {
                let source = sm.get_source(span.src_id());
                wr.write_highlight(source, span, gutter_width, message);
            },
        }
        proof {
            assert(wr.written() == written + line_text(
                style,
                *sm,
                gutter_width as nat,
                lines@[i as int]@,
            ));
            assert(wr.written() =~= head + lines_text(
                style,
                *sm,
                gutter_width as nat,
                views.take(i + 1),
            ));
        }
        i += 1;
    }
    proof {
        assert(views.take(i as int) =~= views);
        assert(wr.written() =~= start + rendered(style, *sm, diag@));
    }
}

} // verus!

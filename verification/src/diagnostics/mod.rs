//! Diagnostics: user-facing errors with annotated spans of source text.

use crate::source_map::{SourceMap, Span};
use render::{ansi_style, renderable, rendered, DiagWriter};
use vstd::prelude::*;

pub mod render;
pub mod specifics;
pub mod text;

verus! {

/// One annotated span of a diagnostic.
#[derive(Debug)]
pub struct DiagnosticPart {
    span: Span,
    help: String,
}

/// What a `DiagnosticPart` holds.
pub struct PartView {
    pub span: Span,
    pub help: Seq<char>,
}

impl View for DiagnosticPart {
    type V = PartView;

    closed spec fn view(&self) -> PartView {
        PartView { span: self.span, help: self.help@ }
    }
}

impl DiagnosticPart {
    /// The span that the part is about.
    pub fn span(&self) -> (span: Span)
        ensures
            span == self@.span,
    {
        self.span
    }

    /// The annotation of the span.
    pub fn help(&self) -> (help: &str)
        ensures
            help@ == self@.help,
    {
        self.help.as_str()
    }
}

/// The models of a sequence of parts.
pub open spec fn part_views(parts: Seq<&DiagnosticPart>) -> Seq<PartView> {
    parts.map_values(|part: &DiagnosticPart| part@)
}

/// A message, and the spans of source text that it is about.
#[derive(Debug)]
pub struct Diagnostic {
    msg: String,
    parts: Vec<DiagnosticPart>,
}

/// What a `Diagnostic` holds.
pub struct DiagnosticView {
    pub msg: Seq<char>,
    pub parts: Seq<PartView>,
}

impl View for Diagnostic {
    type V = DiagnosticView;

    closed spec fn view(&self) -> DiagnosticView {
        DiagnosticView { msg: self.msg@, parts: self.parts@.map_values(|part: DiagnosticPart| part@) }
    }
}

/// The models of a sequence of diagnostics.
pub open spec fn diagnostic_views(diagnostics: Seq<Diagnostic>) -> Seq<DiagnosticView> {
    diagnostics.map_values(|diagnostic: Diagnostic| diagnostic@)
}

impl Diagnostic {
    /// A diagnostic with the message `msg` and no parts yet.
    pub fn new(msg: String) -> (diagnostic: Self)
        ensures
            diagnostic@ == (DiagnosticView { msg: msg@, parts: Seq::empty() }),
    {
        let diagnostic = Self { msg, parts: Vec::new() };
        assert(diagnostic@.parts =~= Seq::empty());
        diagnostic
    }

    /// The same diagnostic with one more part, after those it has.
    pub fn add_part(self, span: Span, help: String) -> (diagnostic: Self)
        ensures
            diagnostic@ == (DiagnosticView {
                msg: self@.msg,
                parts: self@.parts.push(PartView { span, help: help@ }),
            }),
    {
        let mut diagnostic = self;
        diagnostic.parts.push(DiagnosticPart { span, help });
        assert(diagnostic@.parts =~= self@.parts.push(PartView { span, help: help@ }));
        diagnostic
    }

    /// The message.
    pub fn msg(&self) -> (msg: &str)
        ensures
            msg@ == self@.msg,
    {
        self.msg.as_str()
    }

    /// The number of parts.
    pub fn part_count(&self) -> (count: usize)
        ensures
            count == self@.parts.len(),
    {
        self.parts.len()
    }

    /// The part `index`.
    pub fn part(&self, index: usize) -> (part: &DiagnosticPart)
        requires
            index < self@.parts.len(),
        ensures
            part@ == self@.parts[index as int],
    {
        &self.parts[index]
    }

    /// Whether the diagnostic can be rendered with `sm`.
    pub fn can_render(&self, sm: &SourceMap) -> (b: bool)
        ensures
            b == renderable(*sm, self@),
    {
        render::is_renderable(self, sm)
    }

    /// Appends the rendered diagnostic to `out`, with ANSI styling.
    pub fn render(&self, out: &mut String, sm: &SourceMap)
        requires
            renderable(*sm, self@),
        ensures
            final(out)@ == old(out)@ + rendered(ansi_style(), *sm, self@),
    {
        let mut buffer = String::new();
        std::mem::swap(out, &mut buffer);
        let mut writer = DiagWriter::new_ansi(buffer);
        render::render(&mut writer, self, sm);
        let mut buffer = writer.finish();
        std::mem::swap(out, &mut buffer);
    }
}

} // verus!

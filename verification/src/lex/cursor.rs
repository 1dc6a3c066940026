//! The cursor that walks the bytes of a source, one character at a time.

use super::scan::{lemma_run_end_skip, run_end, CharClass};
use super::token::{TokenTree, TokenTreeView, TokenType};
use crate::source_map::{char_width, lemma_boundary_bytes, lemma_next_boundary, Source, Span};
use vstd::prelude::*;
use vstd::slice::slice_subrange;
use vstd::string::*;
use vstd::utf8::*;

verus! {

/// The number of bytes in the encoding of the character whose first byte is
/// `first`.
pub fn len_utf8(first: u8) -> (width: usize)
    ensures
        width == char_width(first),
{
    if first < 0x80 {
        1
    } else if first < 0xE0 {
        2
    } else if first < 0xF0 {
        3
    } else {
        4
    }
}

/// A scan position in a source, and the start of the token that is being
/// read: the characters between the two have been popped and not yet
/// turned into a token or ignored.
pub struct Cursor<'a> {
    source: &'a Source,
    byte_offset: usize,
    span_offset: usize,
    span_len: usize,
}

impl<'a> Cursor<'a> {
    /// The token start and the scan position are character boundaries of
    /// the text, in this order.
    pub closed spec fn wf(&self) -> bool {
        &&& self.bytes().len() < usize::MAX
        &&& self.span_offset + self.span_len == self.byte_offset
        &&& is_char_boundary(self.bytes(), self.span_offset as int)
        &&& is_char_boundary(self.bytes(), self.byte_offset as int)
    }

    /// The source that is read.
    pub closed spec fn source(&self) -> Source {
        *self.source
    }

    /// The scan position.
    pub closed spec fn offset(&self) -> int {
        self.byte_offset as int
    }

    /// Where the token that is being read starts.
    pub closed spec fn token_start(&self) -> int {
        self.span_offset as int
    }

    /// The bytes of the text that is read.
    pub open spec fn bytes(&self) -> Seq<u8> {
        self.source().bytes()
    }

    /// The first byte of the next character, if the text has not ended.
    pub open spec fn spec_peek(&self) -> Option<u8> {
        if self.offset() < self.bytes().len() {
            Some(self.bytes()[self.offset()])
        } else {
            None
        }
    }

    /// The positions lie in the text, which is valid UTF-8.
    pub proof fn lemma_wf(&self)
        requires
            self.wf(),
        ensures
            0 <= self.token_start() <= self.offset() <= self.bytes().len(),
            is_char_boundary(self.bytes(), self.token_start()),
            is_char_boundary(self.bytes(), self.offset()),
            valid_utf8(self.bytes()),
            self.bytes().len() < usize::MAX,
    {
        encode_utf8_valid_utf8(self.source().spec_text());
        lemma_boundary_bytes(self.bytes(), self.offset());
    }

    /// A cursor at the start of the text of `source`.
    pub fn new(source: &'a Source) -> (cursor: Self)
        ensures
            cursor.wf(),
            cursor.source() == *source,
            cursor.offset() == 0,
            cursor.token_start() == 0,
    {
        proof {
            use_type_invariant(source);
            source.lemma_text();
        }
        Self { source, byte_offset: 0, span_offset: 0, span_len: 0 }
    }

    /// The bytes of the text.
    fn text(&self) -> (text: &'a [u8])
        ensures
            text@ == self.bytes(),
            valid_utf8(self.bytes()),
            self.bytes().len() < usize::MAX,
    {
        self.source.text().as_bytes()
    }

    /// The first byte of the next character, if the text has not ended.
    pub fn peek(&self) -> (c: Option<u8>)
        requires
            self.wf(),
        ensures
            c == self.spec_peek(),
    {
        let text = self.text();
        if self.byte_offset < text.len() {
            Some(text[self.byte_offset])
        } else {
            None
        }
    }

    /// Whether the next character is the ASCII character `c`.
    pub fn peek_is(&self, c: u8) -> (b: bool)
        requires
            self.wf(),
        ensures
            b == (self.spec_peek() == Some(c)),
    {
        match self.peek() {
            Some(next) => next == c,
            None => false,
        }
    }

    /// Moves past the next character and returns its first byte.
    pub fn pop(&mut self) -> (c: Option<u8>)
        requires
            old(self).wf(),
        ensures
            final(self).wf(),
            final(self).source() == old(self).source(),
            final(self).token_start() == old(self).token_start(),
            c == old(self).spec_peek(),
            match c {
                Some(first) => final(self).offset() == old(self).offset() + char_width(first),
                None => final(self).offset() == old(self).offset(),
            },
    {
        let c = self.peek();
        match c {
            Some(first) => {
                proof {
                    self.lemma_wf();
                    lemma_next_boundary(self.bytes(), self.offset());
                }
                self.span_len += len_utf8(first);
                self.byte_offset += len_utf8(first);
            },
            None => {},
        }
        c
    }

    /// Moves past the longest run of characters of `class`.
    pub fn pop_while(&mut self, class: CharClass)
        requires
            old(self).wf(),
        ensures
            final(self).wf(),
            final(self).source() == old(self).source(),
            final(self).token_start() == old(self).token_start(),
            final(self).offset() == run_end(old(self).bytes(), old(self).offset(), class),
    {
        loop
            invariant
                self.wf(),
                self.source() == old(self).source(),
                self.token_start() == old(self).token_start(),
                run_end(self.bytes(), self.offset(), class) == run_end(
                    old(self).bytes(),
                    old(self).offset(),
                    class,
                ),
            ensures
                self.offset() == run_end(old(self).bytes(), old(self).offset(), class),
            decreases self.bytes().len() - self.offset(),
        {
            proof {
                self.lemma_wf();
            }
            match self.peek() {
                Some(c) => {
                    if !class.contains(c) {
                        break ;
                    }
                    proof {
                        lemma_next_boundary(self.bytes(), self.offset());
                        lemma_run_end_skip(
                            self.bytes(),
                            self.offset(),
                            self.offset() + char_width(c),
                            class,
                        );
                    }
                    self.pop();
                },
                None => {
                    break ;
                },
            }
        }
    }

    /// The bytes of the token that is being read.
    pub fn popped_text(&self) -> (text: &'a [u8])
        requires
            self.wf(),
        ensures
            text@ == self.bytes().subrange(self.token_start(), self.offset()),
    {
        proof {
            self.lemma_wf();
        }
        slice_subrange(self.text(), self.span_offset, self.span_offset + self.span_len)
    }

    /// The span of the token that is being read; the next token starts at
    /// the scan position.
    pub fn popped_as_span(&mut self) -> (span: Span)
        requires
            old(self).wf(),
        ensures
            final(self).wf(),
            final(self).source() == old(self).source(),
            final(self).offset() == old(self).offset(),
            final(self).token_start() == old(self).offset(),
            span == Span::at(
                old(self).source().id(),
                old(self).token_start() as usize,
                old(self).offset() as usize,
            ),
            old(self).source().valid_span(span),
    {
        let span = self.source.span_with_len(self.span_offset, self.span_len);
        self.span_offset = self.byte_offset;
        self.span_len = 0;
        span
    }

    /// The token of type `ty` that is being read; the next token starts at
    /// the scan position.
    pub fn popped_as_token(&mut self, ty: TokenType) -> (token: TokenTree)
        requires
            old(self).wf(),
        ensures
            final(self).wf(),
            final(self).source() == old(self).source(),
            final(self).offset() == old(self).offset(),
            final(self).token_start() == old(self).offset(),
            token@ == TokenTreeView::leaf(
                ty,
                Span::at(
                    old(self).source().id(),
                    old(self).token_start() as usize,
                    old(self).offset() as usize,
                ),
            ),
    {
        TokenTree::new(ty, self.popped_as_span())
    }

    /// Drops what has been popped; the next token starts at the scan
    /// position.
    pub fn ignore(&mut self)
        requires
            old(self).wf(),
        ensures
            final(self).wf(),
            final(self).source() == old(self).source(),
            final(self).offset() == old(self).offset(),
            final(self).token_start() == old(self).offset(),
    {
        self.span_offset = self.byte_offset;
        self.span_len = 0;
    }
}

} // verus!

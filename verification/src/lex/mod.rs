//! The lexer converts a `Source` into a sequence of token trees.
//!
//! It never fails: what it cannot read becomes an error token, and
//! delimiters are balanced as the text is scanned.

use crate::diagnostics::specifics::lex::{
    illegal_char, mismatched_close_paren, spec_illegal_char, spec_mismatched_close_paren,
    spec_unmatched_close_paren, spec_unmatched_open_paren, unmatched_close_paren,
    unmatched_open_paren,
};
use crate::diagnostics::render::renderable_in;
use crate::diagnostics::{diagnostic_views, Diagnostic, DiagnosticView};
use crate::source_map::{group_span_lemmas, Source, SourceId, Span};
use crate::FResult;
use cursor::Cursor;
use laws::{lemma_lex_matches_text, tree_matches_text};
use scan::{
    char_is_whitespace, delim_ty, ident_token_ty, is_close_delim, is_open_delim, leaf_at,
    lemma_run_end, CharClass,
};
use token::{tree_views, TokenErrorTy, TokenTree, TokenTreeView, TokenType};
use vstd::prelude::*;

pub mod cursor;
pub mod laws;
pub mod scan;
pub mod token;

verus! {

/// A delimiter that is open: its kind, its span, and the tokens that came
/// before it at its own level.
pub struct Frame {
    pub ty: TokenType,
    pub open_span: Span,
    pub tokens: Seq<TokenTreeView>,
}

/// What is left when the text ends with `stack` still open: from the
/// innermost, each opening delimiter becomes an error token, followed by
/// what was read inside it.
pub open spec fn unwind(stack: Seq<Frame>, tokens: Seq<TokenTreeView>) -> Seq<TokenTreeView>
    decreases stack.len(),
{
    if stack.len() == 0 {
        tokens
    } else {
        let frame = stack.last();
        let error = TokenTreeView::error(TokenErrorTy::UnmatchedOpenParen, frame.open_span);
        unwind(stack.drop_last(), frame.tokens.push(error) + tokens)
    }
}

/// A token that is no delimiter is at least one byte long.
pub proof fn lemma_leaf_advances(bytes: Seq<u8>, p: int)
    requires
        0 <= p < bytes.len(),
    ensures
        leaf_at(bytes, p).1 > p,
{
    lemma_run_end(bytes, p + 1, CharClass::CommentBody);
    lemma_run_end(bytes, p + 1, CharClass::Digit);
    lemma_run_end(bytes, p + 1, CharClass::IdentContinue);
}

/// The token trees of the text `bytes` of the source `id`, given that its
/// first `p` bytes have been read, with the delimiters of `stack` open and
/// `tokens` read at the current level.
pub open spec fn lex_from(
    bytes: Seq<u8>,
    id: SourceId,
    p: int,
    stack: Seq<Frame>,
    tokens: Seq<TokenTreeView>,
) -> Seq<TokenTreeView>
    decreases
        (if p < bytes.len() {
            bytes.len() - p
        } else {
            0
        }),
{
    if p < 0 || p >= bytes.len() {
        unwind(stack, tokens)
    } else {
        let c = bytes[p];
        let here = Span::at(id, p as usize, (p + 1) as usize);
        if is_open_delim(c) {
            let frame = Frame { ty: delim_ty(c), open_span: here, tokens };
            lex_from(bytes, id, p + 1, stack.push(frame), Seq::empty())
        } else if is_close_delim(c) {
            if stack.len() == 0 {
                // There is no open delimiter for this one to close.
                let error = TokenTreeView::error(TokenErrorTy::UnmatchedCloseParen, here);
                lex_from(bytes, id, p + 1, stack, tokens.push(error))
            } else {
                let frame = stack.last();
                let children = if frame.ty != delim_ty(c) {
                    // The tree is still built, with an error as its last child.
                    tokens.push(
                        TokenTreeView::error(
                            TokenErrorTy::MismatchedParenTy { open_span: frame.open_span },
                            here,
                        ),
                    )
                } else {
                    tokens
                };
                let tree = TokenTreeView {
                    ty: frame.ty,
                    span: frame.open_span.spec_union(here),
                    children,
                };
                lex_from(bytes, id, p + 1, stack.drop_last(), frame.tokens.push(tree))
            }
        } else {
            proof {
                lemma_leaf_advances(bytes, p);
            }
            let (ty, end) = leaf_at(bytes, p);
            match ty {
                // Comments, whitespace, etc. get ignored.
                None => lex_from(bytes, id, end, stack, tokens),
                Some(ty) => {
                    let token = TokenTreeView::leaf(ty, Span::at(id, p as usize, end as usize));
                    lex_from(bytes, id, end, stack, tokens.push(token))
                },
            }
        }
    }
}

/// The token trees of the text `bytes` of the source `id`.
pub open spec fn lex(bytes: Seq<u8>, id: SourceId) -> Seq<TokenTreeView> {
    lex_from(bytes, id, 0, Seq::empty(), Seq::empty())
}

/// The frames that the lexer's stack stands for.
pub open spec fn frames(stack: Seq<(TokenType, Span, Vec<TokenTree>)>) -> Seq<Frame> {
    stack.map_values(
        |frame: (TokenType, Span, Vec<TokenTree>)|
            Frame { ty: frame.0, open_span: frame.1, tokens: tree_views(frame.2@) },
    )
}

struct Lexer<'a> {
    cursor: Cursor<'a>,
}

impl<'a> Lexer<'a> {
    /// A lexer at the start of the text of `source`.
    fn new(source: &'a Source) -> (lexer: Self)
        ensures
            lexer.cursor.wf(),
            lexer.cursor.source() == *source,
            lexer.cursor.offset() == 0,
            lexer.cursor.token_start() == 0,
    {
        let cursor = Cursor::new(source);
        Self { cursor }
    }

    /// Reads the text to its end and gives its token trees.
    fn get_tokens(&mut self) -> (tokens: Vec<TokenTree>)
        requires
            old(self).cursor.wf(),
            old(self).cursor.offset() == 0,
            old(self).cursor.token_start() == 0,
        ensures
            tree_views(tokens@) == lex(
                old(self).cursor.bytes(),
                old(self).cursor.source().id(),
            ),
    {
        broadcast use group_span_lemmas;

        let ghost bytes = self.cursor.bytes();
        let ghost id = self.cursor.source().id();
        let mut paren_stack: Vec<(TokenType, Span, Vec<TokenTree>)> = Vec::new();
        let mut tokens: Vec<TokenTree> = Vec::new();
        assert(frames(paren_stack@) =~= Seq::empty());
        assert(tree_views(tokens@) =~= Seq::empty());

        loop
            invariant
                self.cursor.wf(),
                self.cursor.bytes() == bytes,
                self.cursor.source().id() == id,
                self.cursor.token_start() == self.cursor.offset(),
                forall|i: int|
                    0 <= i < paren_stack@.len() ==> {
                        &&& (#[trigger] paren_stack@[i]).0.is_nested()
                        &&& paren_stack@[i].1.src_id() == id
                    },
                lex(bytes, id) == lex_from(
                    bytes,
                    id,
                    self.cursor.offset(),
                    frames(paren_stack@),
                    tree_views(tokens@),
                ),
            ensures
                self.cursor.offset() >= bytes.len(),
            decreases bytes.len() - self.cursor.offset(),
        {
            let ghost p = self.cursor.offset();
            let ghost old_stack = paren_stack@;
            let ghost old_frames = frames(paren_stack@);
            let ghost old_tokens = tree_views(tokens@);
            proof {
                broadcast use group_span_lemmas;

                self.cursor.lemma_wf();
                if old_stack.len() > 0 {
                    assert(old_stack[old_stack.len() - 1].0.is_nested());
                }
            }
            let next: u8 = match self.cursor.pop() {
                Some(next) => next,
                None => {
                    break ;
                },
            };
            if next == '(' as u8 || next == '{' as u8 || next == '[' as u8 {
                let ty = TokenType::new_from_paren(next as char);
                let open_span = self.cursor.popped_as_span();
                paren_stack.push((ty, open_span, tokens));
                tokens = Vec::new();
                proof {
                    let frame = Frame { ty: delim_ty(next), open_span, tokens: old_tokens };
                    assert(frames(paren_stack@) =~= old_frames.push(frame));
                    assert(tree_views(tokens@) =~= Seq::empty());
                }
            } else if next == ')' as u8 || next == '}' as u8 || next == ']' as u8 {
                match paren_stack.pop() {
                    None => {
                        // There is no matching parenthesis for this one so
                        // just replace this token with an error.
                        let token_ty = TokenType::Error(TokenErrorTy::UnmatchedCloseParen);
                        let token = self.cursor.popped_as_token(token_ty);
                        tokens.push(token);
                        proof {
                            assert(frames(paren_stack@) =~= old_frames);
                            assert(tree_views(tokens@) =~= old_tokens.push(token@));
                        }
                    },
                    Some((open_ty, open_span, previous_tokens)) => {
                        let close_ty = TokenType::new_from_paren(next as char);
                        let close_span = self.cursor.popped_as_span();
                        let ghost frame = old_frames.last();
                        let ghost mut children = old_tokens;
                        if open_ty != close_ty {
                            // If the types don't match we will still build the tree
                            // but we will also add an extra error token at the end
                            // of the children.
                            let token = TokenTree::new_error(
                                TokenErrorTy::MismatchedParenTy { open_span },
                                close_span,
                            );
                            tokens.push(token);
                            proof {
                                children = old_tokens.push(token@);
                            }
                        }
                        proof {
                            assert(tree_views(tokens@) =~= children);
                        }
                        let whole_span = Span::union(open_span, close_span);
                        let tree = TokenTree::new_nested(open_ty, whole_span, tokens);

                        // Restore the previous tokens and add the tree we
                        // just built at the end.
                        tokens = previous_tokens;
                        tokens.push(tree);
                        proof {
                            assert(frames(paren_stack@) =~= old_frames.drop_last());
                            assert(tree_views(tokens@) =~= frame.tokens.push(tree@));
                        }
                    },
                }
            } else {
                proof {
                    lemma_leaf_advances(bytes, p);
                }
                match self.next_leaf_ty(next) {
                    None => {
                        // Comments, whitespace, etc. get ignored.
                    },
                    Some(ty) => {
                        let token = self.cursor.popped_as_token(ty);
                        tokens.push(token);
                        proof {
                            assert(tree_views(tokens@) =~= old_tokens.push(token@));
                        }
                    },
                }
            }
            proof {
                self.cursor.lemma_wf();
            }
        }

        // If there is still anything in the stack then that means we had
        // unmatched opening parenthesis. We will just ignore those opening
        // parenthesis by replacing them with an error token and concatenating
        // the whole stack into the current tokens vec.
        loop
            invariant
                lex(bytes, id) == unwind(frames(paren_stack@), tree_views(tokens@)),
            ensures
                paren_stack@.len() == 0,
            decreases paren_stack@.len(),
        {
            let ghost old_frames = frames(paren_stack@);
            let ghost old_tokens = tree_views(tokens@);
            match paren_stack.pop() {
                None => {
                    break ;
                },
                Some((_, open_span, mut prev_tokens)) => {
                    let err_token = TokenTree::new_error(
                        TokenErrorTy::UnmatchedOpenParen,
                        open_span,
                    );
                    let ghost previous = tree_views(prev_tokens@);
                    prev_tokens.push(err_token);
                    prev_tokens.append(&mut tokens);
                    tokens = prev_tokens;
                    proof {
                        assert(frames(paren_stack@) =~= old_frames.drop_last());
                        assert(tree_views(tokens@) =~= previous.push(err_token@) + old_tokens);
                    }
                },
            }
        }
        proof {
            assert(frames(paren_stack@) =~= Seq::empty());
        }
        tokens
    }

    /// Reads the rest of the token whose first character, `next`, has just
    /// been popped, and gives its type: `None` for what is ignored.
    fn next_leaf_ty(&mut self, next: u8) -> (ty: Option<TokenType>)
        requires
            old(self).cursor.wf(),
            0 <= old(self).cursor.token_start() < old(self).cursor.bytes().len(),
            old(self).cursor.bytes()[old(self).cursor.token_start()] == next,
            old(self).cursor.offset() == old(self).cursor.token_start() + crate::source_map::char_width(
                next,
            ),
            !is_open_delim(next),
            !is_close_delim(next),
        ensures
            final(self).cursor.wf(),
            final(self).cursor.source() == old(self).cursor.source(),
            ty == leaf_at(old(self).cursor.bytes(), old(self).cursor.token_start()).0,
            final(self).cursor.offset() == leaf_at(
                old(self).cursor.bytes(),
                old(self).cursor.token_start(),
            ).1,
            final(self).cursor.token_start() == if ty is Some {
                old(self).cursor.token_start()
            } else {
                final(self).cursor.offset()
            },
    {
        let cursor = &mut self.cursor;

        let ty = if char_is_whitespace(next) {
            // Whitespace
            cursor.ignore();
            return None;
        } else if next == '/' as u8 && cursor.peek_is('/' as u8) {
            // Comments
            cursor.pop_while(CharClass::CommentBody);
            cursor.ignore();
            return None;
        } else if scan::char_is_digit(next) {
            // Literals
            cursor.pop_while(CharClass::Digit);
            TokenType::IntLit
        } else if scan::char_can_start_ident(next) {
            // Identifiers and keywords
            cursor.pop_while(CharClass::IdentContinue);
            ident_token_ty(cursor.popped_text())
        } else if next == '+' as u8 {
            // Symbols
            TokenType::Plus
        } else if next == '-' as u8 {
            if cursor.peek_is('>' as u8) {
                cursor.pop();
                TokenType::RArrow
            } else {
                TokenType::Minus
            }
        } else if next == '*' as u8 {
            TokenType::Mul
        } else if next == '/' as u8 {
            TokenType::Div
        } else if next == '!' as u8 {
            if cursor.peek_is('=' as u8) {
                cursor.pop();
                TokenType::NotEq
            } else {
                TokenType::Not
            }
        } else if next == '|' as u8 && cursor.peek_is('|' as u8) {
            cursor.pop();
            TokenType::OrOr
        } else if next == '&' as u8 && cursor.peek_is('&' as u8) {
            cursor.pop();
            TokenType::AndAnd
        } else if next == '=' as u8 {
            if cursor.peek_is('=' as u8) {
                cursor.pop();
                TokenType::EqEq
            } else {
                TokenType::Eq
            }
        } else if next == '<' as u8 {
            if cursor.peek_is('=' as u8) {
                cursor.pop();
                TokenType::Lte
            } else {
                TokenType::Lt
            }
        } else if next == '>' as u8 {
            if cursor.peek_is('=' as u8) {
                cursor.pop();
                TokenType::Gte
            } else {
                TokenType::Gt
            }
        } else if next == ';' as u8 {
            TokenType::Semicolon
        } else if next == ':' as u8 {
            TokenType::Colon
        } else if next == ',' as u8 {
            TokenType::Comma
        } else {
            // Unrecognized character is an error.
            TokenType::Error(TokenErrorTy::IllegalChar)
        };

        Some(ty)
    }
}


/// The diagnostic for `tree`, if it is an error token.
pub open spec fn error_of(source: Source, tree: TokenTreeView) -> Option<DiagnosticView> {
    match tree.ty {
        TokenType::Error(ty) => Some(
            match ty {
                TokenErrorTy::IllegalChar => spec_illegal_char(
                    tree.span,
                    source.text_of(tree.span),
                ),
                TokenErrorTy::UnmatchedOpenParen => spec_unmatched_open_paren(
                    tree.span,
                    source.text_of(tree.span),
                ),
                TokenErrorTy::UnmatchedCloseParen => spec_unmatched_close_paren(
                    tree.span,
                    source.text_of(tree.span),
                ),
                TokenErrorTy::MismatchedParenTy { open_span } => spec_mismatched_close_paren(
                    open_span,
                    tree.span,
                    source.text_of(tree.span),
                ),
            },
        ),
        _ => None,
    }
}

/// The diagnostics for the error tokens of `tree`: those of its children,
/// then its own.
pub open spec fn errors_of(source: Source, tree: TokenTreeView) -> Seq<DiagnosticView>
    decreases tree,
{
    errors_in(source, tree.children) + match error_of(source, tree) {
        Some(error) => seq![error],
        None => Seq::empty(),
    }
}

/// The diagnostics for the error tokens of `trees`, tree after tree.
pub open spec fn errors_in(source: Source, trees: Seq<TokenTreeView>) -> Seq<DiagnosticView>
    decreases trees,
{
    if trees.len() == 0 {
        Seq::empty()
    } else {
        errors_in(source, trees.drop_last()) + errors_of(source, trees.last())
    }
}

/// Every tree of `trees` matches the text of `source`.
pub open spec fn trees_match_source(source: Source, trees: Seq<TokenTreeView>) -> bool {
    forall|i: int|
        0 <= i < trees.len() ==> tree_matches_text(source.bytes(), source.id(), #[trigger] trees[i])
}

/// The token trees of the text of `source`, error tokens included.
pub fn lex_tree(source: &Source) -> (tokens: Vec<TokenTree>)
    ensures
        tree_views(tokens@) == lex(source.bytes(), source.id()),
{
    Lexer::new(source).get_tokens()
}

/// The span of every error token of `tree`, at any depth, is a span of
/// `source`.
pub open spec fn error_spans_in_source(source: Source, tree: TokenTreeView) -> bool
    decreases tree,
{
    &&& tree.ty is Error ==> source.valid_span(tree.span)
    &&& forall|i: int|
        0 <= i < tree.children.len() ==> error_spans_in_source(source, #[trigger] tree.children[i])
}

/// The span of every error token of `trees`, at any depth, is a span of
/// `source`.
pub open spec fn all_error_spans_in_source(source: Source, trees: Seq<TokenTreeView>) -> bool {
    forall|i: int| 0 <= i < trees.len() ==> error_spans_in_source(source, #[trigger] trees[i])
}

/// Lexes the text of `source`: the token trees where none holds an error,
/// else the diagnostics for all the error tokens.
pub fn lex_source(source: &Source) -> (result: FResult<Vec<TokenTree>>)
    ensures
        match result {
            Ok(tokens) => {
                &&& tree_views(tokens@) == lex(source.bytes(), source.id())
                &&& errors_in(*source, lex(source.bytes(), source.id())).len() == 0
            },
            Err(errors) => {
                &&& diagnostic_views(errors@) == errors_in(
                    *source,
                    lex(source.bytes(), source.id()),
                )
                &&& errors@.len() > 0
                &&& forall|i: int|
                    0 <= i < errors@.len() ==> renderable_in(*source, (#[trigger] errors@[i])@)
            },
        },
{
    let tokens = lex_tree(source);

    let mut errors: Vec<Diagnostic> = Vec::new();
    proof {
        use_type_invariant(source);
        source.lemma_text();
        lemma_lex_matches_text(source.bytes(), source.id());
        laws::lemma_error_spans_in_source(*source, tree_views(tokens@));
        assert(diagnostic_views(errors@) =~= Seq::empty());
    }
    find_errors(tokens.as_slice(), source, &mut errors);
    proof {
        let found = errors_in(*source, tree_views(tokens@));
        assert(Seq::<DiagnosticView>::empty() + found =~= found);
        laws::lemma_errors_in_renderable(*source, tree_views(tokens@));
        assert forall|i: int| 0 <= i < errors@.len() implies renderable_in(
            *source,
            (#[trigger] errors@[i])@,
        ) by {
            assert(diagnostic_views(errors@)[i] == errors@[i]@);
        }
    }

    if errors.is_empty() {
        Ok(tokens)
    } else {
        Err(errors)
    }
}

/// Appends to `errors` the diagnostic for every error token of `tokens`.
pub fn find_errors(tokens: &[TokenTree], source: &Source, errors: &mut Vec<Diagnostic>)
    requires
        all_error_spans_in_source(*source, tree_views(tokens@)),
    ensures
        diagnostic_views(final(errors)@) == diagnostic_views(old(errors)@) + errors_in(
            *source,
            tree_views(tokens@),
        ),
    decreases tree_views(tokens@),
{
    let ghost trees = tree_views(tokens@);
    let ghost before = diagnostic_views(errors@);
    let mut i: usize = 0;
    proof {
        assert(trees.take(0) =~= Seq::empty());
        assert(before + errors_in(*source, trees.take(0)) =~= before);
    }
    while i < tokens.len()
        invariant
            i <= tokens@.len(),
            trees == tree_views(tokens@),
            all_error_spans_in_source(*source, trees),
            diagnostic_views(errors@) == before + errors_in(*source, trees.take(i as int)),
        decreases tokens@.len() - i,
    {
        let token = &tokens[i];
        let ghost found = diagnostic_views(errors@);
        proof {
            assert(trees[i as int] == token@);
            assert(trees.take(i + 1).drop_last() =~= trees.take(i as int));
            assert(trees.take(i + 1).last() == token@);
        }
        find_errors_of(token, source, errors);
        proof {
            assert(diagnostic_views(errors@) =~= before + errors_in(
                *source,
                trees.take(i + 1),
            ));
        }
        i += 1;
    }
    proof {
        assert(trees.take(i as int) =~= trees);
    }
}

/// Appends to `errors` the diagnostic for every error token of `token`.
fn find_errors_of(token: &TokenTree, source: &Source, errors: &mut Vec<Diagnostic>)
    requires
        error_spans_in_source(*source, token@),
    ensures
        diagnostic_views(final(errors)@) == diagnostic_views(old(errors)@) + errors_of(
            *source,
            token@,
        ),
    decreases token@,
{
    let ghost before = diagnostic_views(errors@);
    find_errors(token.children(), source, errors);
    let ghost inner = errors_in(*source, token@.children);

    let error = match token.ty() {
        TokenType::Error(ty) => match ty {
            TokenErrorTy::IllegalChar => illegal_char(token.span(), source),
            TokenErrorTy::UnmatchedOpenParen => unmatched_open_paren(token.span(), source),
            TokenErrorTy::UnmatchedCloseParen => unmatched_close_paren(token.span(), source),
            TokenErrorTy::MismatchedParenTy { open_span } => {
                mismatched_close_paren(open_span, token.span(), source)
            },
        },
        _ => {
            proof {
                assert(before + inner + Seq::<DiagnosticView>::empty() =~= before + inner);
                assert(before + (inner + Seq::<DiagnosticView>::empty()) =~= before + inner);
            }
            return ;
        },
    };
    errors.push(error);
    proof {
        assert(diagnostic_views(errors@) =~= (before + inner).push(error@));
        assert((before + inner).push(error@) =~= before + (inner + seq![error@]));
    }
}

} // verus!

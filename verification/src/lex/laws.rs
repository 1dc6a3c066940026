//! What holds of every sequence of token trees that the lexer builds: each
//! tree matches the text that it spans, and the top-level trees tile the
//! text.

use super::scan::{
    delim_ty, is_close_delim, is_open_delim, leaf_at, lemma_leaf_at, lemma_leaf_no_newline,
};
use super::token::{TokenErrorTy, TokenTreeView, TokenType};
use super::{
    all_error_spans_in_source, error_of, error_spans_in_source, errors_in, errors_of, lex,
    lex_from, trees_match_source, unwind, Frame,
};
use crate::diagnostics::render::{part_renderable_in, renderable_in};
use crate::source_map::{
    group_span_lemmas, lemma_boundary_bytes, lemma_count_below, lemma_line_ends,
    lemma_next_boundary, lemma_same_line, line_ends, line_of_byte, Source, SourceId, Span,
    NEWLINE,
};
use vstd::prelude::*;
use vstd::utf8::*;

verus! {

/// The offset at which the span of `tree` starts.
pub open spec fn start_of(tree: TokenTreeView) -> int {
    tree.span.start().byte() as int
}

/// The offset at which the span of `tree` ends.
pub open spec fn end_of(tree: TokenTreeView) -> int {
    tree.span.end().byte() as int
}

/// `span` is a span of the source `id` that holds at least one whole
/// character of `bytes`.
pub open spec fn span_in_text(bytes: Seq<u8>, id: SourceId, span: Span) -> bool {
    &&& span == Span::at(id, span.start().byte(), span.end().byte())
    &&& span.start().byte() < span.end().byte() <= bytes.len()
    &&& is_char_boundary(bytes, span.start().byte() as int)
    &&& is_char_boundary(bytes, span.end().byte() as int)
}

/// No byte of `bytes` that `span` covers is a newline.
pub open spec fn no_newline_in(bytes: Seq<u8>, span: Span) -> bool {
    forall|k: int| span.start().byte() <= k < span.end().byte() ==> #[trigger] bytes[k] != NEWLINE
}

/// `tree` is the error token that marks a closing delimiter of the wrong kind.
pub open spec fn is_mismatch(tree: TokenTreeView) -> bool {
    match tree.ty {
        TokenType::Error(TokenErrorTy::MismatchedParenTy { .. }) => true,
        _ => false,
    }
}

/// The bytes from `from` to `to` hold whitespace and comments only.
pub open spec fn is_trivia(bytes: Seq<u8>, from: int, to: int) -> bool
    decreases to - from,
{
    if from >= to {
        from == to
    } else {
        let end = leaf_at(bytes, from).1;
        &&& 0 <= from < bytes.len()
        &&& !is_open_delim(bytes[from])
        &&& !is_close_delim(bytes[from])
        &&& leaf_at(bytes, from).0 is None
        &&& from < end <= to
        &&& is_trivia(bytes, end, to)
    }
}

/// The spans of `trees` follow one another from `from` to `to`, with
/// nothing but whitespace and comments before, between and after them.
pub open spec fn tiles(bytes: Seq<u8>, trees: Seq<TokenTreeView>, from: int, to: int) -> bool
    decreases trees.len(),
{
    if trees.len() == 0 {
        is_trivia(bytes, from, to)
    } else {
        let last = trees.last();
        &&& tiles(bytes, trees.drop_last(), from, start_of(last))
        &&& start_of(last) < end_of(last)
        &&& is_trivia(bytes, end_of(last), to)
    }
}

/// The span of the nested token `tree` starts with the opening delimiter
/// of its kind and ends with a closing delimiter. Where that one is of
/// the same kind, no child is a mismatch error; where it is not, the last
/// child, and no other, is the mismatch error for these two delimiters.
pub open spec fn balanced(bytes: Seq<u8>, id: SourceId, tree: TokenTreeView) -> bool {
    let start = tree.span.start().byte();
    let end = tree.span.end().byte();
    let children = tree.children;
    &&& start + 2 <= end
    &&& is_open_delim(bytes[start as int])
    &&& delim_ty(bytes[start as int]) == tree.ty
    &&& is_close_delim(bytes[end - 1])
    &&& if delim_ty(bytes[end - 1]) == tree.ty {
        forall|i: int| 0 <= i < children.len() ==> !is_mismatch(#[trigger] children[i])
    } else {
        &&& children.len() > 0
        &&& children.last() == TokenTreeView::error(
            TokenErrorTy::MismatchedParenTy {
                open_span: Span::at(id, start, (start + 1) as usize),
            },
            Span::at(id, (end - 1) as usize, end),
        )
        &&& forall|i: int| 0 <= i < children.len() - 1 ==> !is_mismatch(#[trigger] children[i])
    }
}

/// `tree` matches the text `bytes` of the source `id`: its span, and any
/// span that it names, lies in the text; a token that is not nested, and
/// any span that it names, holds no newline; only a nested token has
/// children; a nested token is balanced; and its children match the text
/// too.
pub open spec fn tree_matches_text(bytes: Seq<u8>, id: SourceId, tree: TokenTreeView) -> bool
    decreases tree,
{
    &&& span_in_text(bytes, id, tree.span)
    &&& match tree.ty {
        TokenType::Error(TokenErrorTy::MismatchedParenTy { open_span }) => {
            &&& span_in_text(bytes, id, open_span)
            &&& no_newline_in(bytes, open_span)
        },
        _ => true,
    }
    &&& if tree.ty.is_nested() {
        balanced(bytes, id, tree)
    } else {
        &&& tree.children.len() == 0
        &&& no_newline_in(bytes, tree.span)
    }
    &&& forall|i: int|
        0 <= i < tree.children.len() ==> tree_matches_text(bytes, id, #[trigger] tree.children[i])
}

/// Every tree of `trees` matches the text, and none is a mismatch error.
pub open spec fn all_match_text(bytes: Seq<u8>, id: SourceId, trees: Seq<TokenTreeView>) -> bool {
    forall|i: int|
        0 <= i < trees.len() ==> {
            &&& tree_matches_text(bytes, id, #[trigger] trees[i])
            &&& !is_mismatch(trees[i])
        }
}

/// `frame` stands for an opening delimiter of the text before `p`.
pub open spec fn frame_matches_text(bytes: Seq<u8>, id: SourceId, p: int, frame: Frame) -> bool {
    let start = frame.open_span.start().byte();
    &&& frame.ty.is_nested()
    &&& span_in_text(bytes, id, frame.open_span)
    &&& frame.open_span.end().byte() == start + 1
    &&& start + 1 <= p
    &&& is_open_delim(bytes[start as int])
    &&& delim_ty(bytes[start as int]) == frame.ty
    &&& all_match_text(bytes, id, frame.tokens)
}

/// What holds of the lexer's state when it has read the first `p` bytes.
pub open spec fn state_matches_text(
    bytes: Seq<u8>,
    id: SourceId,
    p: int,
    stack: Seq<Frame>,
    tokens: Seq<TokenTreeView>,
) -> bool {
    &&& 0 <= p <= bytes.len()
    &&& is_char_boundary(bytes, p)
    &&& forall|i: int|
        0 <= i < stack.len() ==> frame_matches_text(bytes, id, p, #[trigger] stack[i])
    &&& all_match_text(bytes, id, tokens)
    &&& tiles(bytes, unwind(stack, tokens), 0, p)
}

/// What is left of open delimiters ends with the tokens of the innermost.
pub proof fn lemma_unwind_append(stack: Seq<Frame>, tokens: Seq<TokenTreeView>)
    ensures
        unwind(stack, tokens) == unwind(stack, Seq::empty()) + tokens,
    decreases stack.len(),
{
    if stack.len() == 0 {
        assert(Seq::<TokenTreeView>::empty() + tokens =~= tokens);
    } else {
        let frame = stack.last();
        let error = TokenTreeView::error(TokenErrorTy::UnmatchedOpenParen, frame.open_span);
        let head = frame.tokens.push(error);
        lemma_unwind_append(stack.drop_last(), head + tokens);
        lemma_unwind_append(stack.drop_last(), head + Seq::empty());
        let below = unwind(stack.drop_last(), Seq::empty());
        assert(below + (head + tokens) =~= (below + (head + Seq::empty())) + tokens);
    }
}

/// Whitespace and comments that follow one another are whitespace and
/// comments.
pub proof fn lemma_trivia_concat(bytes: Seq<u8>, from: int, mid: int, to: int)
    requires
        is_trivia(bytes, from, mid),
        is_trivia(bytes, mid, to),
    ensures
        is_trivia(bytes, from, to),
    decreases mid - from,
{
    if from < mid {
        lemma_trivia_concat(bytes, leaf_at(bytes, from).1, mid, to);
    }
}

/// A tiling may go on over whitespace and comments.
pub proof fn lemma_tiles_extend(
    bytes: Seq<u8>,
    trees: Seq<TokenTreeView>,
    from: int,
    mid: int,
    to: int,
)
    requires
        tiles(bytes, trees, from, mid),
        is_trivia(bytes, mid, to),
    ensures
        tiles(bytes, trees, from, to),
{
    if trees.len() == 0 {
        lemma_trivia_concat(bytes, from, mid, to);
    } else {
        lemma_trivia_concat(bytes, end_of(trees.last()), mid, to);
    }
}

/// A tiling that ends at the start of `tree` goes on with `tree`.
pub proof fn lemma_tiles_push(
    bytes: Seq<u8>,
    trees: Seq<TokenTreeView>,
    tree: TokenTreeView,
    from: int,
)
    requires
        tiles(bytes, trees, from, start_of(tree)),
        start_of(tree) < end_of(tree),
    ensures
        tiles(bytes, trees.push(tree), from, end_of(tree)),
{
    assert(trees.push(tree).drop_last() =~= trees);
}

/// The trees before any tree of a tiling tile the text up to its start.
pub proof fn lemma_tiles_split(
    bytes: Seq<u8>,
    before: Seq<TokenTreeView>,
    tree: TokenTreeView,
    after: Seq<TokenTreeView>,
    from: int,
    to: int,
)
    requires
        tiles(bytes, before.push(tree) + after, from, to),
    ensures
        tiles(bytes, before, from, start_of(tree)),
    decreases after.len(),
{
    let all = before.push(tree) + after;
    if after.len() == 0 {
        assert(all =~= before.push(tree));
        assert(all.drop_last() =~= before);
    } else {
        assert(all.drop_last() =~= before.push(tree) + after.drop_last());
        lemma_tiles_split(bytes, before, tree, after.drop_last(), from, start_of(after.last()));
    }
}

/// Whatever is left of open delimiters that match the text matches it too.
pub proof fn lemma_unwind_matches_text(
    bytes: Seq<u8>,
    id: SourceId,
    p: int,
    stack: Seq<Frame>,
    tokens: Seq<TokenTreeView>,
)
    requires
        forall|i: int|
            0 <= i < stack.len() ==> frame_matches_text(bytes, id, p, #[trigger] stack[i]),
        all_match_text(bytes, id, tokens),
    ensures
        all_match_text(bytes, id, unwind(stack, tokens)),
    decreases stack.len(),
{
    if stack.len() > 0 {
        let frame = stack.last();
        assert(frame_matches_text(bytes, id, p, frame));
        let error = TokenTreeView::error(TokenErrorTy::UnmatchedOpenParen, frame.open_span);
        let rest = frame.tokens.push(error) + tokens;
        assert forall|i: int| 0 <= i < rest.len() implies {
            &&& tree_matches_text(bytes, id, #[trigger] rest[i])
            &&& !is_mismatch(rest[i])
        } by {
            if i < frame.tokens.len() {
                assert(rest[i] == frame.tokens[i]);
            } else if i == frame.tokens.len() {
                assert(rest[i] == error);
            } else {
                assert(rest[i] == tokens[i - frame.tokens.len() - 1]);
            }
        }
        assert forall|i: int| 0 <= i < stack.drop_last().len() implies frame_matches_text(
            bytes,
            id,
            p,
            #[trigger] stack.drop_last()[i],
        ) by {
            assert(stack.drop_last()[i] == stack[i]);
        }
        lemma_unwind_matches_text(bytes, id, p, stack.drop_last(), rest);
    }
}


/// Frames that match the text before `p` match it before any later offset.
proof fn lemma_frames_later(bytes: Seq<u8>, id: SourceId, p: int, q: int, stack: Seq<Frame>)
    requires
        p <= q,
        forall|i: int|
            0 <= i < stack.len() ==> frame_matches_text(bytes, id, p, #[trigger] stack[i]),
    ensures
        forall|i: int|
            0 <= i < stack.len() ==> frame_matches_text(bytes, id, q, #[trigger] stack[i]),
{
    assert forall|i: int| 0 <= i < stack.len() implies frame_matches_text(
        bytes,
        id,
        q,
        #[trigger] stack[i],
    ) by {
        assert(frame_matches_text(bytes, id, p, stack[i]));
    }
}

/// One more tree that matches the text, at the end of trees that do.
proof fn lemma_all_match_push(
    bytes: Seq<u8>,
    id: SourceId,
    trees: Seq<TokenTreeView>,
    tree: TokenTreeView,
)
    requires
        all_match_text(bytes, id, trees),
        tree_matches_text(bytes, id, tree),
        !is_mismatch(tree),
    ensures
        all_match_text(bytes, id, trees.push(tree)),
{
    assert forall|i: int| 0 <= i < trees.push(tree).len() implies {
        &&& tree_matches_text(bytes, id, #[trigger] trees.push(tree)[i])
        &&& !is_mismatch(trees.push(tree)[i])
    } by {
        if i < trees.len() {
            assert(trees.push(tree)[i] == trees[i]);
        }
    }
}

/// From a state that matches the text, the lexer builds trees that match
/// the text and tile it.
pub proof fn lemma_lex_from_matches_text(
    bytes: Seq<u8>,
    id: SourceId,
    p: int,
    stack: Seq<Frame>,
    tokens: Seq<TokenTreeView>,
)
    requires
        valid_utf8(bytes),
        bytes.len() <= usize::MAX,
        state_matches_text(bytes, id, p, stack, tokens),
    ensures
        all_match_text(bytes, id, lex_from(bytes, id, p, stack, tokens)),
        tiles(bytes, lex_from(bytes, id, p, stack, tokens), 0, bytes.len() as int),
    decreases bytes.len() - p,
{
    broadcast use group_span_lemmas;

    let empty = Seq::<TokenTreeView>::empty();
    let flat = unwind(stack, tokens);
    lemma_unwind_append(stack, tokens);
    if p >= bytes.len() {
        lemma_unwind_matches_text(bytes, id, p, stack, tokens);
    } else {
        let c = bytes[p];
        let here = Span::at(id, p as usize, (p + 1) as usize);
        lemma_next_boundary(bytes, p);
        if is_open_delim(c) {
            let frame = Frame { ty: delim_ty(c), open_span: here, tokens };
            let stack2 = stack.push(frame);
            lemma_frames_later(bytes, id, p, p + 1, stack);
            assert forall|i: int| 0 <= i < stack2.len() implies frame_matches_text(
                bytes,
                id,
                p + 1,
                #[trigger] stack2[i],
            ) by {
                if i < stack.len() {
                    assert(stack2[i] == stack[i]);
                }
            }
            let error = TokenTreeView::error(TokenErrorTy::UnmatchedOpenParen, here);
            assert(stack2.drop_last() =~= stack);
            assert(tokens.push(error) + empty =~= tokens.push(error));
            lemma_unwind_append(stack, tokens.push(error));
            assert(unwind(stack2, empty) =~= flat.push(error));
            lemma_tiles_push(bytes, flat, error, 0);
            lemma_lex_from_matches_text(bytes, id, p + 1, stack2, empty);
        } else if is_close_delim(c) {
            if stack.len() == 0 {
                let error = TokenTreeView::error(TokenErrorTy::UnmatchedCloseParen, here);
                lemma_all_match_push(bytes, id, tokens, error);
                lemma_tiles_push(bytes, flat, error, 0);
                lemma_lex_from_matches_text(bytes, id, p + 1, stack, tokens.push(error));
            } else {
                let frame = stack.last();
                assert(frame_matches_text(bytes, id, p, frame));
                let start = frame.open_span.start().byte();
                let mismatch = TokenTreeView::error(
                    TokenErrorTy::MismatchedParenTy { open_span: frame.open_span },
                    here,
                );
                let children = if frame.ty != delim_ty(c) {
                    tokens.push(mismatch)
                } else {
                    tokens
                };
                let tree = TokenTreeView {
                    ty: frame.ty,
                    span: frame.open_span.spec_union(here),
                    children,
                };
                let stack2 = stack.drop_last();
                let tokens2 = frame.tokens.push(tree);
                assert(tree.span == Span::at(id, start, (p + 1) as usize));
                assert forall|i: int| 0 <= i < children.len() implies tree_matches_text(
                    bytes,
                    id,
                    #[trigger] children[i],
                ) by {
                    if i < tokens.len() {
                        assert(children[i] == tokens[i]);
                    }
                }
                if frame.ty != delim_ty(c) {
                    assert(children.last() == mismatch);
                    assert forall|i: int| 0 <= i < children.len() - 1 implies !is_mismatch(
                        #[trigger] children[i],
                    ) by {
                        assert(children[i] == tokens[i]);
                    }
                }
                assert(balanced(bytes, id, tree));
                assert(tree_matches_text(bytes, id, tree));
                lemma_all_match_push(bytes, id, frame.tokens, tree);
                lemma_frames_later(bytes, id, p, p + 1, stack);
                assert forall|i: int| 0 <= i < stack2.len() implies frame_matches_text(
                    bytes,
                    id,
                    p + 1,
                    #[trigger] stack2[i],
                ) by {
                    assert(stack2[i] == stack[i]);
                }
                let below = unwind(stack2, empty);
                let error = TokenTreeView::error(
                    TokenErrorTy::UnmatchedOpenParen,
                    frame.open_span,
                );
                lemma_unwind_append(stack2, frame.tokens.push(error) + empty);
                assert(unwind(stack, empty) == unwind(stack2, frame.tokens.push(error) + empty));
                assert(flat =~= (below + frame.tokens).push(error) + tokens);
                lemma_tiles_split(bytes, below + frame.tokens, error, tokens, 0, p);
                lemma_tiles_push(bytes, below + frame.tokens, tree, 0);
                lemma_unwind_append(stack2, tokens2);
                assert(unwind(stack2, tokens2) =~= (below + frame.tokens).push(tree));
                lemma_lex_from_matches_text(bytes, id, p + 1, stack2, tokens2);
            }
        } else {
            lemma_leaf_at(bytes, p);
            if leaf_at(bytes, p).0 is Some {
                lemma_leaf_no_newline(bytes, p);
            }
            let end = leaf_at(bytes, p).1;
            lemma_frames_later(bytes, id, p, end, stack);
            match leaf_at(bytes, p).0 {
                None => {
                    assert(is_trivia(bytes, end, end));
                    assert(is_trivia(bytes, p, end));
                    lemma_tiles_extend(bytes, flat, 0, p, end);
                    lemma_lex_from_matches_text(bytes, id, end, stack, tokens);
                },
                Some(ty) => {
                    let token = TokenTreeView::leaf(ty, Span::at(id, p as usize, end as usize));
                    assert(!ty.is_nested());
                    lemma_all_match_push(bytes, id, tokens, token);
                    lemma_unwind_append(stack, tokens.push(token));
                    assert(unwind(stack, tokens.push(token)) =~= flat.push(token));
                    lemma_tiles_push(bytes, flat, token, 0);
                    lemma_lex_from_matches_text(bytes, id, end, stack, tokens.push(token));
                },
            }
        }
    }
}

/// Every tree that the lexer builds matches the text: all spans lie in the
/// text on character boundaries, and every nested token, at any depth,
/// is balanced. No top-level tree is a mismatch error.
pub proof fn lemma_lex_matches_text(bytes: Seq<u8>, id: SourceId)
    requires
        valid_utf8(bytes),
        bytes.len() <= usize::MAX,
    ensures
        all_match_text(bytes, id, lex(bytes, id)),
{
    lemma_boundary_bytes(bytes, 0);
    lemma_lex_from_matches_text(bytes, id, 0, Seq::empty(), Seq::empty());
}

/// The spans of the top-level trees, in order, tile the text: taking the
/// whitespace and comments before, between and after them out of the text
/// leaves the texts of these spans, one after the other.
pub proof fn lemma_lex_tiles_text(bytes: Seq<u8>, id: SourceId)
    requires
        valid_utf8(bytes),
        bytes.len() <= usize::MAX,
    ensures
        tiles(bytes, lex(bytes, id), 0, bytes.len() as int),
{
    lemma_boundary_bytes(bytes, 0);
    lemma_lex_from_matches_text(bytes, id, 0, Seq::empty(), Seq::empty());
}


/// The span of the same bytes in the source `id`.
pub open spec fn relabel_span(span: Span, id: SourceId) -> Span {
    Span::at(id, span.start().byte(), span.end().byte())
}

/// The same token type, with any span that it names moved to the source `id`.
pub open spec fn relabel_ty(ty: TokenType, id: SourceId) -> TokenType {
    match ty {
        TokenType::Error(TokenErrorTy::MismatchedParenTy { open_span }) => TokenType::Error(
            TokenErrorTy::MismatchedParenTy { open_span: relabel_span(open_span, id) },
        ),
        _ => ty,
    }
}

/// The same tree, with every span moved to the source `id`.
pub open spec fn relabel(tree: TokenTreeView, id: SourceId) -> TokenTreeView
    decreases tree,
{
    TokenTreeView {
        ty: relabel_ty(tree.ty, id),
        span: relabel_span(tree.span, id),
        children: Seq::new(
            tree.children.len(),
            |i: int|
                if 0 <= i < tree.children.len() {
                    relabel(tree.children[i], id)
                } else {
                    arbitrary()
                },
        ),
    }
}

/// The same trees, with every span moved to the source `id`.
pub open spec fn relabel_all(trees: Seq<TokenTreeView>, id: SourceId) -> Seq<TokenTreeView> {
    Seq::new(trees.len(), |i: int| relabel(trees[i], id))
}

/// The same open delimiters, with every span moved to the source `id`.
pub open spec fn relabel_frames(stack: Seq<Frame>, id: SourceId) -> Seq<Frame> {
    Seq::new(
        stack.len(),
        |i: int|
            Frame {
                ty: relabel_ty(stack[i].ty, id),
                open_span: relabel_span(stack[i].open_span, id),
                tokens: relabel_all(stack[i].tokens, id),
            },
    )
}

/// The children of a tree that is moved are the children, moved.
proof fn lemma_relabel_children(tree: TokenTreeView, id: SourceId)
    ensures
        relabel(tree, id).children == relabel_all(tree.children, id),
{
    assert(relabel(tree, id).children =~= relabel_all(tree.children, id));
}

/// What is left of open delimiters that are moved is what is left of
/// them, moved.
proof fn lemma_unwind_relabel(stack: Seq<Frame>, tokens: Seq<TokenTreeView>, id: SourceId)
    ensures
        unwind(relabel_frames(stack, id), relabel_all(tokens, id)) == relabel_all(
            unwind(stack, tokens),
            id,
        ),
    decreases stack.len(),
{
    broadcast use group_span_lemmas;

    if stack.len() > 0 {
        let frame = stack.last();
        let error = TokenTreeView::error(TokenErrorTy::UnmatchedOpenParen, frame.open_span);
        let rest = frame.tokens.push(error) + tokens;
        lemma_unwind_relabel(stack.drop_last(), rest, id);
        let stack2 = relabel_frames(stack, id);
        let error2 = TokenTreeView::error(TokenErrorTy::UnmatchedOpenParen, stack2.last().open_span);
        lemma_relabel_children(error, id);
        assert(relabel(error, id).children =~= Seq::empty());
        assert(relabel(error, id) == error2);
        assert(stack2.drop_last() =~= relabel_frames(stack.drop_last(), id));
        assert(stack2.last().tokens.push(error2) + relabel_all(tokens, id) =~= relabel_all(
            rest,
            id,
        ));
    }
}

/// From a state that is moved to another source, the lexer builds the
/// same trees, moved.
proof fn lemma_lex_from_relabel(
    bytes: Seq<u8>,
    id: SourceId,
    id2: SourceId,
    p: int,
    stack: Seq<Frame>,
    tokens: Seq<TokenTreeView>,
)
    ensures
        lex_from(bytes, id2, p, relabel_frames(stack, id2), relabel_all(tokens, id2))
            == relabel_all(lex_from(bytes, id, p, stack, tokens), id2),
    decreases
        (if p < bytes.len() {
            bytes.len() - p
        } else {
            0
        }),
{
    broadcast use group_span_lemmas;

    let empty = Seq::<TokenTreeView>::empty();
    let stack2 = relabel_frames(stack, id2);
    let tokens2 = relabel_all(tokens, id2);
    if p < 0 || p >= bytes.len() {
        lemma_unwind_relabel(stack, tokens, id2);
    } else {
        let c = bytes[p];
        let here = Span::at(id, p as usize, (p + 1) as usize);
        let here2 = Span::at(id2, p as usize, (p + 1) as usize);
        if is_open_delim(c) {
            let frame = Frame { ty: delim_ty(c), open_span: here, tokens };
            let frame2 = Frame { ty: delim_ty(c), open_span: here2, tokens: tokens2 };
            lemma_lex_from_relabel(bytes, id, id2, p + 1, stack.push(frame), empty);
            assert(relabel_frames(stack.push(frame), id2) =~= stack2.push(frame2));
            assert(relabel_all(empty, id2) =~= empty);
        } else if is_close_delim(c) {
            if stack.len() == 0 {
                let error = TokenTreeView::error(TokenErrorTy::UnmatchedCloseParen, here);
                let error2 = TokenTreeView::error(TokenErrorTy::UnmatchedCloseParen, here2);
                lemma_lex_from_relabel(bytes, id, id2, p + 1, stack, tokens.push(error));
                lemma_relabel_children(error, id2);
                assert(relabel(error, id2).children =~= Seq::empty());
                assert(relabel_all(tokens.push(error), id2) =~= tokens2.push(error2));
            } else {
                let frame = stack.last();
                let frame2 = stack2.last();
                let mismatch = TokenTreeView::error(
                    TokenErrorTy::MismatchedParenTy { open_span: frame.open_span },
                    here,
                );
                let mismatch2 = TokenTreeView::error(
                    TokenErrorTy::MismatchedParenTy { open_span: frame2.open_span },
                    here2,
                );
                lemma_relabel_children(mismatch, id2);
                assert(relabel(mismatch, id2).children =~= Seq::empty());
                assert(relabel(mismatch, id2) == mismatch2);
                let children = if frame.ty != delim_ty(c) {
                    tokens.push(mismatch)
                } else {
                    tokens
                };
                let children2 = if frame2.ty != delim_ty(c) {
                    tokens2.push(mismatch2)
                } else {
                    tokens2
                };
                assert(relabel_all(children, id2) =~= children2);
                let tree = TokenTreeView {
                    ty: frame.ty,
                    span: frame.open_span.spec_union(here),
                    children,
                };
                let tree2 = TokenTreeView {
                    ty: frame2.ty,
                    span: frame2.open_span.spec_union(here2),
                    children: children2,
                };
                lemma_relabel_children(tree, id2);
                assert(relabel(tree, id2) == tree2);
                lemma_lex_from_relabel(
                    bytes,
                    id,
                    id2,
                    p + 1,
                    stack.drop_last(),
                    frame.tokens.push(tree),
                );
                assert(relabel_frames(stack.drop_last(), id2) =~= stack2.drop_last());
                assert(relabel_all(frame.tokens.push(tree), id2) =~= frame2.tokens.push(tree2));
            }
        } else {
            super::lemma_leaf_advances(bytes, p);
            let end = leaf_at(bytes, p).1;
            match leaf_at(bytes, p).0 {
                None => {
                    lemma_lex_from_relabel(bytes, id, id2, end, stack, tokens);
                },
                Some(ty) => {
                    let token = TokenTreeView::leaf(ty, Span::at(id, p as usize, end as usize));
                    let token2 = TokenTreeView::leaf(ty, Span::at(id2, p as usize, end as usize));
                    lemma_relabel_children(token, id2);
                    assert(relabel(token, id2).children =~= Seq::empty());
                    assert(relabel(token, id2) == token2);
                    lemma_lex_from_relabel(bytes, id, id2, end, stack, tokens.push(token));
                    assert(relabel_all(tokens.push(token), id2) =~= tokens2.push(token2));
                },
            }
        }
    }
}

/// The token trees of a text do not depend on the source that holds it,
/// but for the source that their spans name: those of the same text in
/// another source are the same trees, with every span moved to that source.
pub proof fn lemma_lex_relabel(bytes: Seq<u8>, id: SourceId, id2: SourceId)
    ensures
        lex(bytes, id2) == relabel_all(lex(bytes, id), id2),
{
    let empty = Seq::<TokenTreeView>::empty();
    lemma_lex_from_relabel(bytes, id, id2, 0, Seq::empty(), empty);
    assert(relabel_frames(Seq::empty(), id2) =~= Seq::empty());
    assert(relabel_all(empty, id2) =~= empty);
}


/// A span that holds no newline lies on one line, which is a line of the
/// text.
pub proof fn lemma_span_on_one_line(bytes: Seq<u8>, id: SourceId, span: Span)
    requires
        span_in_text(bytes, id, span),
        no_newline_in(bytes, span),
    ensures
        line_of_byte(bytes, span.start().byte() as int) == line_of_byte(
            bytes,
            span.end().byte() as int,
        ),
        line_of_byte(bytes, span.start().byte() as int) <= line_ends(bytes).len(),
{
    let start = span.start().byte() as int;
    let end = span.end().byte() as int;
    let ends = line_ends(bytes);
    lemma_line_ends(bytes);
    lemma_same_line(bytes, start, end);
    assert forall|k: int| 0 <= k < ends.len() implies !(start <= #[trigger] ends[k] < end) by {
        if start <= ends[k] < end {
            assert(bytes[ends[k]] == NEWLINE);
        }
    }
    lemma_line_exists(bytes, start);
}

/// An offset within the text lies on a line of the text, and so does the
/// end of a text that does not end with a newline.
pub proof fn lemma_line_exists(bytes: Seq<u8>, byte: int)
    requires
        0 <= byte <= bytes.len(),
        byte < bytes.len() || bytes.len() == 0 || bytes.last() != NEWLINE,
    ensures
        line_of_byte(bytes, byte) <= line_ends(bytes).len(),
{
    let ends = line_ends(bytes);
    lemma_line_ends(bytes);
    lemma_count_below(ends, byte);
    if line_of_byte(bytes, byte) > ends.len() {
        assert(ends[ends.len() - 1] < byte);
    }
}

/// The diagnostic for an error token that matches the text of `source`
/// can be rendered.
pub proof fn lemma_error_renderable(source: Source, tree: TokenTreeView)
    requires
        tree_matches_text(source.bytes(), source.id(), tree),
        tree.ty is Error,
    ensures
        error_of(source, tree) is Some,
        renderable_in(source, error_of(source, tree)->0),
{
    broadcast use group_span_lemmas;

    let bytes = source.bytes();
    let diagnostic = error_of(source, tree)->0;
    lemma_span_on_one_line(bytes, source.id(), tree.span);
    match tree.ty {
        TokenType::Error(TokenErrorTy::MismatchedParenTy { open_span }) => {
            lemma_span_on_one_line(bytes, source.id(), open_span);
        },
        _ => {},
    }
    assert forall|i: int| 0 <= i < diagnostic.parts.len() implies part_renderable_in(
        source,
        #[trigger] diagnostic.parts[i],
    ) by {
        assert(diagnostic.parts[i].span == tree.span || (tree.ty matches TokenType::Error(
            TokenErrorTy::MismatchedParenTy { open_span },
        ) && diagnostic.parts[i].span == open_span));
    }
}

/// The diagnostics for the error tokens of a tree that matches the text
/// of `source` can be rendered.
pub proof fn lemma_errors_of_renderable(source: Source, tree: TokenTreeView)
    requires
        tree_matches_text(source.bytes(), source.id(), tree),
    ensures
        forall|i: int|
            0 <= i < errors_of(source, tree).len() ==> renderable_in(
                source,
                #[trigger] errors_of(source, tree)[i],
            ),
    decreases tree,
{
    lemma_errors_in_renderable(source, tree.children);
    if tree.ty is Error {
        lemma_error_renderable(source, tree);
    }
    let inner = errors_in(source, tree.children);
    assert forall|i: int| 0 <= i < errors_of(source, tree).len() implies renderable_in(
        source,
        #[trigger] errors_of(source, tree)[i],
    ) by {
        if i < inner.len() {
            assert(errors_of(source, tree)[i] == inner[i]);
        } else {
            assert(errors_of(source, tree)[i] == error_of(source, tree)->0);
        }
    }
}

/// The diagnostics for the error tokens of trees that match the text of
/// `source` can be rendered.
pub proof fn lemma_errors_in_renderable(source: Source, trees: Seq<TokenTreeView>)
    requires
        trees_match_source(source, trees),
    ensures
        forall|i: int|
            0 <= i < errors_in(source, trees).len() ==> renderable_in(
                source,
                #[trigger] errors_in(source, trees)[i],
            ),
    decreases trees,
{
    if trees.len() > 0 {
        assert forall|i: int| 0 <= i < trees.drop_last().len() implies tree_matches_text(
            source.bytes(),
            source.id(),
            #[trigger] trees.drop_last()[i],
        ) by {
            assert(trees.drop_last()[i] == trees[i]);
        }
        lemma_errors_in_renderable(source, trees.drop_last());
        lemma_errors_of_renderable(source, trees.last());
        let init = errors_in(source, trees.drop_last());
        let last = errors_of(source, trees.last());
        assert forall|i: int| 0 <= i < errors_in(source, trees).len() implies renderable_in(
            source,
            #[trigger] errors_in(source, trees)[i],
        ) by {
            if i < init.len() {
                assert(errors_in(source, trees)[i] == init[i]);
            } else {
                assert(errors_in(source, trees)[i] == last[i - init.len()]);
            }
        }
    }
}


/// In a tree that matches the text of `source`, the span of every error
/// token is a span of `source`.
pub proof fn lemma_tree_error_spans_in_source(source: Source, tree: TokenTreeView)
    requires
        tree_matches_text(source.bytes(), source.id(), tree),
    ensures
        error_spans_in_source(source, tree),
    decreases tree,
{
    assert forall|i: int| 0 <= i < tree.children.len() implies error_spans_in_source(
        source,
        #[trigger] tree.children[i],
    ) by {
        lemma_tree_error_spans_in_source(source, tree.children[i]);
    }
}

/// In trees that match the text of `source`, the span of every error
/// token is a span of `source`.
pub proof fn lemma_error_spans_in_source(source: Source, trees: Seq<TokenTreeView>)
    requires
        trees_match_source(source, trees),
    ensures
        all_error_spans_in_source(source, trees),
{
    assert forall|i: int| 0 <= i < trees.len() implies error_spans_in_source(
        source,
        #[trigger] trees[i],
    ) by {
        lemma_tree_error_spans_in_source(source, trees[i]);
    }
}

} // verus!

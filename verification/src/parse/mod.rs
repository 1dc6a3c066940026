//! A recovering parser for the following grammar:
//!
//! ```grammar
//! file ::= declaration*
//!
//! declaration ::= fn_decl
//!
//! fn_decl ::= FN IDENT fn_args (R_ARROW type)? block
//! fn_args ::= L_PAREN (fn_arg COMMA)* fn_arg? R_PAREN
//! fn_arg  ::= IDENT COLON type
//!
//! block ::= L_CURLY ... R_CURLY
//!
//! type ::= IDENT
//! ```
//!
//! A production that does not find a token that it expects reports a
//! diagnostic and fails. It says whether the cursor already stands at a
//! point from which parsing can go on (`Synced`) or not (`Unsynced`), and
//! parsing goes on from such a point, so that one pass reports all the
//! errors that it can find. The contents of a block are not parsed yet.

use crate::diagnostics::render::{part_renderable_in, renderable_in};
use crate::diagnostics::specifics::parse::{expected, spec_expected, Found};
use crate::diagnostics::{diagnostic_views, Diagnostic, DiagnosticView};
use crate::lex::laws::{
    lemma_lex_matches_text, lemma_line_exists, lemma_span_on_one_line, tree_matches_text,
};
use crate::lex::token::{tree_views, TokenTree, TokenTreeView, TokenType};
use crate::lex::{errors_in, lex, lex_source, trees_match_source};
use crate::source_map::{
    group_span_lemmas, lemma_next_boundary, lemma_span_eq, Source, SourcePos, Span, NEWLINE,
};
use crate::FResult;
use ast::{
    decl_in_source, file_in_source, fn_arg_in_source, BlockAst, BlockView, DeclarationAst,
    DeclarationView, FileAst, FileView, FnArgAst, FnDeclAst, FnDeclView, FnReturnTypeAst, TypeAst,
};
use vstd::prelude::*;
use vstd::utf8::encode_utf8_valid_utf8;

pub mod ast;
pub mod visit;

verus! {

/// Where a failed production has left the cursor.
#[derive(Debug, Clone, Copy, PartialEq, Eq, Structural)]
pub enum SyncStatus {
    /// At a point from which the caller may go on at once.
    Synced,
    /// Anywhere: the caller has to find such a point.
    Unsynced,
}

/// What a production gives: its node, or how it failed.
pub type PResult<T> = Result<T, SyncStatus>;

/// Whether the token at `pos` is of type `ty`.
pub open spec fn is_at(tokens: Seq<TokenTreeView>, pos: int, ty: TokenType) -> bool {
    0 <= pos < tokens.len() && tokens[pos].ty == ty
}

/// The first position from `pos` on whose token has one of the types
/// `sync`, or the end of `tokens`.
pub open spec fn sync_point(tokens: Seq<TokenTreeView>, pos: int, sync: Seq<TokenType>) -> int
    decreases tokens.len() - pos,
{
    if pos < 0 || pos >= tokens.len() || sync.contains(tokens[pos].ty) {
        pos
    } else {
        sync_point(tokens, pos + 1, sync)
    }
}

/// The position behind the token at `pos` if it is of type `ty`, else `pos`.
pub open spec fn skip(tokens: Seq<TokenTreeView>, pos: int, ty: TokenType) -> int {
    if is_at(tokens, pos, ty) {
        pos + 1
    } else {
        pos
    }
}

/// A type at `pos`, and the position behind what was read.
pub open spec fn ty_at(tokens: Seq<TokenTreeView>, pos: int) -> (PResult<TypeAst>, int) {
    if is_at(tokens, pos, TokenType::Ident) {
        (Ok(TypeAst { name_ident: tokens[pos].span }), pos + 1)
    } else {
        (Err(SyncStatus::Unsynced), pos)
    }
}

/// A block at `pos`, and the position behind what was read: a group in
/// curly brackets, whose contents are not read.
pub open spec fn block_at(tokens: Seq<TokenTreeView>, pos: int) -> (PResult<BlockView>, int) {
    if is_at(tokens, pos, TokenType::CurlyBrackets) {
        (Ok(BlockView::empty()), pos + 1)
    } else {
        (Err(SyncStatus::Unsynced), pos)
    }
}

/// A function argument at `pos`, and the position behind what was read.
pub open spec fn fn_arg_at(tokens: Seq<TokenTreeView>, pos: int) -> (PResult<FnArgAst>, int) {
    if !is_at(tokens, pos, TokenType::Ident) {
        (Err(SyncStatus::Unsynced), pos)
    } else if !is_at(tokens, pos + 1, TokenType::Colon) {
        (Err(SyncStatus::Unsynced), pos + 1)
    } else if !is_at(tokens, pos + 2, TokenType::Ident) {
        (Err(SyncStatus::Unsynced), pos + 2)
    } else {
        (
            Ok(
                FnArgAst {
                    name: tokens[pos].span,
                    colon: tokens[pos + 1].span,
                    ty: TypeAst { name_ident: tokens[pos + 2].span },
                },
            ),
            pos + 3,
        )
    }
}

/// The position behind a function argument at `pos`, read or skipped: an
/// argument that fails is skipped up to the next comma.
pub open spec fn after_fn_arg(tokens: Seq<TokenTreeView>, pos: int) -> int {
    let (arg, next) = fn_arg_at(tokens, pos);
    match arg {
        Ok(_) => next,
        Err(_) => sync_point(tokens, next, seq![TokenType::Comma]),
    }
}

/// What follows a function argument is either at its position or behind it.
pub proof fn lemma_after_fn_arg(tokens: Seq<TokenTreeView>, pos: int)
    requires
        0 <= pos <= tokens.len(),
    ensures
        pos <= after_fn_arg(tokens, pos) <= tokens.len(),
{
    lemma_sync_point(tokens, fn_arg_at(tokens, pos).1, seq![TokenType::Comma]);
}

/// The arguments between the delimiters of a function's argument list,
/// from `pos` on, after `args`: arguments with commas between them. An
/// argument that fails is left out. What follows an argument that is no
/// comma makes the list fail.
pub open spec fn fn_args_from(tokens: Seq<TokenTreeView>, pos: int, args: Seq<FnArgAst>) -> PResult<
    Seq<FnArgAst>,
>
    decreases tokens.len() - pos,
{
    if pos < 0 || pos >= tokens.len() {
        Ok(args)
    } else {
        let next = after_fn_arg(tokens, pos);
        let args = match fn_arg_at(tokens, pos).0 {
            Ok(arg) => args.push(arg),
            Err(_) => args,
        };
        if next >= tokens.len() {
            Ok(args)
        } else if tokens[next].ty == TokenType::Comma {
            proof {
                lemma_after_fn_arg(tokens, pos);
            }
            fn_args_from(tokens, next + 1, args)
        } else {
            Err(SyncStatus::Unsynced)
        }
    }
}

/// A function's argument list at `pos`, and the position behind what was
/// read: a group in parentheses, which holds the arguments.
pub open spec fn fn_args_at(tokens: Seq<TokenTreeView>, pos: int) -> (PResult<Seq<FnArgAst>>, int) {
    if is_at(tokens, pos, TokenType::Parens) {
        (fn_args_from(tokens[pos].children, 0, Seq::empty()), pos + 1)
    } else {
        (Err(SyncStatus::Unsynced), pos)
    }
}

/// A function's return type at `pos`, if there is an arrow, and the
/// position behind what was read.
pub open spec fn fn_return_ty_at(tokens: Seq<TokenTreeView>, pos: int) -> (
    PResult<Option<FnReturnTypeAst>>,
    int,
) {
    if is_at(tokens, pos, TokenType::RArrow) {
        let (ty, next) = ty_at(tokens, pos + 1);
        (
            match ty {
                Ok(ty) => Ok(Some(FnReturnTypeAst { r_arrow: tokens[pos].span, ty })),
                Err(status) => Err(status),
            },
            next,
        )
    } else {
        (Ok(None), pos)
    }
}

/// A function declaration at `pos`, where the keyword `fn` stands, and the
/// position behind what was read. Each part is read where the part before
/// it has stopped, whether that one failed or not; the declaration fails
/// if its name, its arguments, its return type or its body do.
pub open spec fn fn_at(tokens: Seq<TokenTreeView>, pos: int) -> (PResult<FnDeclView>, int) {
    let after_name = skip(tokens, pos + 1, TokenType::Ident);
    let (args, after_args) = fn_args_at(tokens, after_name);
    let (return_ty, after_return_ty) = fn_return_ty_at(tokens, after_args);
    let (body, end) = block_at(tokens, after_return_ty);
    (
        if body is Err || !is_at(tokens, pos + 1, TokenType::Ident) {
            Err(SyncStatus::Unsynced)
        } else {
            match (args, return_ty) {
                (Ok(args), Ok(return_ty)) => Ok(
                    FnDeclView {
                        fn_kw: tokens[pos].span,
                        name_ident: tokens[pos + 1].span,
                        args,
                        return_ty,
                        body: BlockView::empty(),
                    },
                ),
                (Err(status), _) => Err(status),
                (_, Err(status)) => Err(status),
            }
        },
        end,
    )
}

/// A declaration at `pos`, and the position behind what was read or
/// skipped. A declaration that fails leaves the cursor at the next
/// keyword `fn`, or at the end.
pub open spec fn decl_at(tokens: Seq<TokenTreeView>, pos: int) -> (PResult<DeclarationView>, int) {
    if is_at(tokens, pos, TokenType::Fn) {
        let (decl, next) = fn_at(tokens, pos);
        match decl {
            Ok(decl) => (Ok(DeclarationView::FnDecl(decl)), next),
            Err(SyncStatus::Unsynced) => (
                Err(SyncStatus::Synced),
                sync_point(tokens, next, seq![TokenType::Fn]),
            ),
            Err(SyncStatus::Synced) => (Err(SyncStatus::Synced), next),
        }
    } else {
        (Err(SyncStatus::Synced), sync_point(tokens, pos, seq![TokenType::Fn]))
    }
}

/// The declarations of a file from `pos` on: those that do not fail.
pub open spec fn decls_from(tokens: Seq<TokenTreeView>, pos: int) -> Seq<DeclarationView>
    decreases tokens.len() - pos,
{
    if pos < 0 || pos >= tokens.len() {
        Seq::empty()
    } else {
        proof {
            lemma_decl_advances(tokens, pos);
        }
        let (decl, next) = decl_at(tokens, pos);
        match decl {
            Ok(decl) => seq![decl] + decls_from(tokens, next),
            Err(_) => decls_from(tokens, next),
        }
    }
}

/// The file that `tokens` holds.
pub open spec fn file_of(tokens: Seq<TokenTreeView>) -> FileView {
    FileView { declarations: decls_from(tokens, 0) }
}

/// What marks the token `tree` in a diagnostic: its span, and for a
/// nested token its opening delimiter.
pub open spec fn mark_of(tree: TokenTreeView) -> Span {
    if tree.ty.is_nested() {
        let start = tree.span.start();
        let end = tree.span.end();
        Span::between(
            start,
            SourcePos::at(
                start.src_id(),
                if start.byte() < end.byte() {
                    (start.byte() + 1) as usize
                } else {
                    end.byte()
                },
            ),
        )
    } else {
        tree.span
    }
}

/// What stands at `pos`: the token there, or behind the last token the
/// end of the tokens.
pub open spec fn found_at(tokens: Seq<TokenTreeView>, pos: int) -> Found {
    if 0 <= pos < tokens.len() {
        Found::Token(mark_of(tokens[pos]))
    } else if 0 < pos <= tokens.len() {
        Found::End(Span::between(tokens[pos - 1].span.end(), tokens[pos - 1].span.end()))
    } else {
        Found::Nothing
    }
}

/// The diagnostic for `what` that is expected at `pos` and not found.
pub open spec fn missing(tokens: Seq<TokenTreeView>, pos: int, what: Seq<char>) -> DiagnosticView {
    spec_expected(what, found_at(tokens, pos))
}

/// What is reported where a token of type `ty`, described as `what`, is
/// expected at `pos`: nothing if it is there.
pub open spec fn expect_errors(
    tokens: Seq<TokenTreeView>,
    pos: int,
    ty: TokenType,
    what: Seq<char>,
) -> Seq<DiagnosticView> {
    if is_at(tokens, pos, ty) {
        Seq::empty()
    } else {
        seq![missing(tokens, pos, what)]
    }
}

/// What is reported for a type at `pos`.
pub open spec fn ty_errors(tokens: Seq<TokenTreeView>, pos: int) -> Seq<DiagnosticView> {
    expect_errors(tokens, pos, TokenType::Ident, "a type"@)
}

/// What is reported for a block at `pos`.
pub open spec fn block_errors(tokens: Seq<TokenTreeView>, pos: int) -> Seq<DiagnosticView> {
    expect_errors(tokens, pos, TokenType::CurlyBrackets, "a block"@)
}

/// What is reported for a function argument at `pos`: the first of its
/// name, its colon and its type that is missing.
pub open spec fn fn_arg_errors(tokens: Seq<TokenTreeView>, pos: int) -> Seq<DiagnosticView> {
    if !is_at(tokens, pos, TokenType::Ident) {
        seq![missing(tokens, pos, "the name of an argument"@)]
    } else if !is_at(tokens, pos + 1, TokenType::Colon) {
        seq![missing(tokens, pos + 1, "`:`"@)]
    } else {
        ty_errors(tokens, pos + 2)
    }
}

/// What is reported for the arguments between the delimiters of a
/// function's argument list, from `pos` on: what is reported for each
/// argument, and a missing comma where an argument is followed by
/// something else.
pub open spec fn fn_args_errors_from(tokens: Seq<TokenTreeView>, pos: int) -> Seq<DiagnosticView>
    decreases tokens.len() - pos,
{
    if pos < 0 || pos >= tokens.len() {
        Seq::empty()
    } else {
        let next = after_fn_arg(tokens, pos);
        fn_arg_errors(tokens, pos) + if next >= tokens.len() {
            Seq::empty()
        } else if tokens[next].ty == TokenType::Comma {
            proof {
                lemma_after_fn_arg(tokens, pos);
            }
            fn_args_errors_from(tokens, next + 1)
        } else {
            seq![missing(tokens, next, "`,`"@)]
        }
    }
}

/// What is reported for a function's argument list at `pos`.
pub open spec fn fn_args_errors(tokens: Seq<TokenTreeView>, pos: int) -> Seq<DiagnosticView> {
    if is_at(tokens, pos, TokenType::Parens) {
        fn_args_errors_from(tokens[pos].children, 0)
    } else {
        seq![missing(tokens, pos, "the arguments of the function"@)]
    }
}

/// What is reported for a function's return type at `pos`.
pub open spec fn fn_return_ty_errors(tokens: Seq<TokenTreeView>, pos: int) -> Seq<DiagnosticView> {
    if is_at(tokens, pos, TokenType::RArrow) {
        ty_errors(tokens, pos + 1)
    } else {
        Seq::empty()
    }
}

/// What is reported for a function declaration at `pos`, where the
/// keyword `fn` stands: what is reported for its name, its arguments, its
/// return type and its body, in this order.
pub open spec fn fn_errors(tokens: Seq<TokenTreeView>, pos: int) -> Seq<DiagnosticView> {
    let after_name = skip(tokens, pos + 1, TokenType::Ident);
    let after_args = fn_args_at(tokens, after_name).1;
    let after_return_ty = fn_return_ty_at(tokens, after_args).1;
    expect_errors(tokens, pos + 1, TokenType::Ident, "the name of the function"@)
        + fn_args_errors(tokens, after_name) + fn_return_ty_errors(tokens, after_args)
        + block_errors(tokens, after_return_ty)
}

/// What is reported for a declaration at `pos`.
pub open spec fn decl_errors(tokens: Seq<TokenTreeView>, pos: int) -> Seq<DiagnosticView> {
    if is_at(tokens, pos, TokenType::Fn) {
        fn_errors(tokens, pos)
    } else {
        seq![missing(tokens, pos, "a declaration"@)]
    }
}

/// What is reported for the declarations of a file from `pos` on.
pub open spec fn file_errors_from(tokens: Seq<TokenTreeView>, pos: int) -> Seq<DiagnosticView>
    decreases tokens.len() - pos,
{
    if pos < 0 || pos >= tokens.len() {
        Seq::empty()
    } else {
        proof {
            lemma_decl_advances(tokens, pos);
        }
        decl_errors(tokens, pos) + file_errors_from(tokens, decl_at(tokens, pos).1)
    }
}

/// The syntax errors of the file that `tokens` holds.
pub open spec fn file_errors(tokens: Seq<TokenTreeView>) -> Seq<DiagnosticView> {
    file_errors_from(tokens, 0)
}

/// The diagnostics of `source`: those of its error tokens and, where it
/// has none, its syntax errors.
pub open spec fn source_errors(source: Source) -> Seq<DiagnosticView> {
    let tokens = lex(source.bytes(), source.id());
    if errors_in(source, tokens).len() > 0 {
        errors_in(source, tokens)
    } else {
        file_errors(tokens)
    }
}

/// A synchronization pass never moves back nor beyond the end, and stops
/// at the first token of the set.
pub proof fn lemma_sync_point(tokens: Seq<TokenTreeView>, pos: int, sync: Seq<TokenType>)
    requires
        0 <= pos <= tokens.len(),
    ensures
        pos <= sync_point(tokens, pos, sync) <= tokens.len(),
        sync_point(tokens, pos, sync) < tokens.len() ==> sync.contains(
            tokens[sync_point(tokens, pos, sync)].ty,
        ),
        forall|i: int| pos <= i < sync_point(tokens, pos, sync) ==> !sync.contains(tokens[i].ty),
    decreases tokens.len() - pos,
{
    if pos < tokens.len() && !sync.contains(tokens[pos].ty) {
        lemma_sync_point(tokens, pos + 1, sync);
    }
}

/// A synchronization pass moves the cursor forward, unless it stands at
/// the end or at a token of the set.
pub proof fn lemma_sync_point_advances(tokens: Seq<TokenTreeView>, pos: int, sync: Seq<TokenType>)
    requires
        0 <= pos < tokens.len(),
        !sync.contains(tokens[pos].ty),
    ensures
        pos < sync_point(tokens, pos, sync) <= tokens.len(),
{
    lemma_sync_point(tokens, pos + 1, sync);
}

/// A function declaration is read forward: at least its keyword is
/// consumed, and never anything beyond the end.
pub proof fn lemma_fn_advances(tokens: Seq<TokenTreeView>, pos: int)
    requires
        0 <= pos < tokens.len(),
    ensures
        pos < fn_at(tokens, pos).1 <= tokens.len(),
{
}

/// The declaration loop never visits a position twice: whether a
/// declaration is read or fails, the cursor ends behind where it stood.
pub proof fn lemma_decl_advances(tokens: Seq<TokenTreeView>, pos: int)
    requires
        0 <= pos < tokens.len(),
    ensures
        pos < decl_at(tokens, pos).1 <= tokens.len(),
{
    lemma_fn_advances(tokens, pos);
    if is_at(tokens, pos, TokenType::Fn) {
        lemma_sync_point(tokens, fn_at(tokens, pos).1, seq![TokenType::Fn]);
    } else {
        assert(!seq![TokenType::Fn].contains(tokens[pos].ty));
        lemma_sync_point_advances(tokens, pos, seq![TokenType::Fn]);
    }
}

/// The span of each of `tokens`, which match the text of `source`, is a
/// span of `source`, and so are those of their children.
pub proof fn lemma_token_in_source(source: Source, tokens: Seq<TokenTreeView>, pos: int)
    requires
        trees_match_source(source, tokens),
        0 <= pos < tokens.len(),
    ensures
        source.valid_span(tokens[pos].span),
        trees_match_source(source, tokens[pos].children),
{
    assert(tree_matches_text(source.bytes(), source.id(), tokens[pos]));
}

/// The arguments that are read from tokens of `source` hold spans of
/// `source`.
pub proof fn lemma_fn_args_in_source(
    source: Source,
    tokens: Seq<TokenTreeView>,
    pos: int,
    args: Seq<FnArgAst>,
)
    requires
        trees_match_source(source, tokens),
        0 <= pos,
        forall|i: int| 0 <= i < args.len() ==> fn_arg_in_source(source, #[trigger] args[i]),
    ensures
        match fn_args_from(tokens, pos, args) {
            Ok(args) => forall|i: int|
                0 <= i < args.len() ==> fn_arg_in_source(source, #[trigger] args[i]),
            Err(_) => true,
        },
    decreases tokens.len() - pos,
{
    if pos < tokens.len() {
        let next = after_fn_arg(tokens, pos);
        lemma_after_fn_arg(tokens, pos);
        let found = match fn_arg_at(tokens, pos).0 {
            Ok(arg) => args.push(arg),
            Err(_) => args,
        };
        assert forall|i: int| 0 <= i < found.len() implies fn_arg_in_source(
            source,
            #[trigger] found[i],
        ) by {
            if i < args.len() {
                assert(found[i] == args[i]);
            } else {
                lemma_token_in_source(source, tokens, pos);
                lemma_token_in_source(source, tokens, pos + 1);
                lemma_token_in_source(source, tokens, pos + 2);
            }
        }
        if next < tokens.len() && tokens[next].ty == TokenType::Comma {
            lemma_fn_args_in_source(source, tokens, next + 1, found);
        }
    }
}

/// The declarations that are read from tokens of `source` hold spans of
/// `source`.
pub proof fn lemma_decls_in_source(source: Source, tokens: Seq<TokenTreeView>, pos: int)
    requires
        trees_match_source(source, tokens),
        0 <= pos,
    ensures
        forall|i: int|
            0 <= i < decls_from(tokens, pos).len() ==> decl_in_source(
                source,
                #[trigger] decls_from(tokens, pos)[i],
            ),
    decreases tokens.len() - pos,
{
    if pos < tokens.len() {
        lemma_decl_advances(tokens, pos);
        let (decl, next) = decl_at(tokens, pos);
        lemma_decls_in_source(source, tokens, next);
        let rest = decls_from(tokens, next);
        match decl {
            Ok(decl) => {
                let after_name = skip(tokens, pos + 1, TokenType::Ident);
                let after_args = fn_args_at(tokens, after_name).1;
                lemma_token_in_source(source, tokens, pos);
                lemma_token_in_source(source, tokens, pos + 1);
                lemma_token_in_source(source, tokens, after_name);
                lemma_fn_args_in_source(source, tokens[after_name].children, 0, Seq::empty());
                if is_at(tokens, after_args, TokenType::RArrow) {
                    lemma_token_in_source(source, tokens, after_args);
                    lemma_token_in_source(source, tokens, after_args + 1);
                }
                assert(decl_in_source(source, decl));
                assert forall|i: int| 0 <= i < decls_from(tokens, pos).len() implies decl_in_source(
                    source,
                    #[trigger] decls_from(tokens, pos)[i],
                ) by {
                    if i > 0 {
                        assert(decls_from(tokens, pos)[i] == rest[i - 1]);
                    }
                }
            },
            Err(_) => {},
        }
    }
}

/// Every diagnostic of `diagnostics` can be rendered in `source`.
pub open spec fn all_renderable_in(source: Source, diagnostics: Seq<DiagnosticView>) -> bool {
    forall|i: int| 0 <= i < diagnostics.len() ==> renderable_in(source, #[trigger] diagnostics[i])
}

/// Diagnostics that can be rendered, one after the other, can be rendered.
pub proof fn lemma_all_renderable_add(
    source: Source,
    first: Seq<DiagnosticView>,
    second: Seq<DiagnosticView>,
)
    requires
        all_renderable_in(source, first),
        all_renderable_in(source, second),
    ensures
        all_renderable_in(source, first + second),
{
    assert forall|i: int| 0 <= i < (first + second).len() implies renderable_in(
        source,
        #[trigger] (first + second)[i],
    ) by {
        if i < first.len() {
            assert((first + second)[i] == first[i]);
        } else {
            assert((first + second)[i] == second[i - first.len()]);
        }
    }
}

/// The diagnostic for what is missing among tokens of `source` can be
/// rendered: what marks a token lies on one line, and so does the end of
/// a token.
pub proof fn lemma_missing_renderable(
    source: Source,
    tokens: Seq<TokenTreeView>,
    pos: int,
    what: Seq<char>,
)
    requires
        trees_match_source(source, tokens),
    ensures
        renderable_in(source, missing(tokens, pos, what)),
        all_renderable_in(source, seq![missing(tokens, pos, what)]),
{
    broadcast use group_span_lemmas;

    let bytes = source.bytes();
    let id = source.id();
    let diagnostic = missing(tokens, pos, what);
    encode_utf8_valid_utf8(source.spec_text());
    if 0 <= pos < tokens.len() {
        let tree = tokens[pos];
        assert(tree_matches_text(bytes, id, tree));
        let span = mark_of(tree);
        if tree.ty.is_nested() {
            lemma_next_boundary(bytes, tree.span.start().byte() as int);
        }
        lemma_span_on_one_line(bytes, id, span);
        assert(part_renderable_in(source, diagnostic.parts[0]));
    } else if 0 < pos <= tokens.len() {
        let tree = tokens[pos - 1];
        assert(tree_matches_text(bytes, id, tree));
        let end = tree.span.end().byte() as int;
        assert(bytes[end - 1] != NEWLINE);
        lemma_line_exists(bytes, end);
        assert(part_renderable_in(source, diagnostic.parts[0]));
    }
}

/// What is reported for the arguments of a function among tokens of
/// `source` can be rendered.
pub proof fn lemma_fn_args_errors_renderable(source: Source, tokens: Seq<TokenTreeView>, pos: int)
    requires
        trees_match_source(source, tokens),
        0 <= pos,
    ensures
        all_renderable_in(source, fn_args_errors_from(tokens, pos)),
    decreases tokens.len() - pos,
{
    if pos < tokens.len() {
        let next = after_fn_arg(tokens, pos);
        lemma_after_fn_arg(tokens, pos);
        lemma_missing_renderable(source, tokens, pos, "the name of an argument"@);
        lemma_missing_renderable(source, tokens, pos + 1, "`:`"@);
        lemma_missing_renderable(source, tokens, pos + 2, "a type"@);
        lemma_missing_renderable(source, tokens, next, "`,`"@);
        let rest = if next >= tokens.len() {
            Seq::<DiagnosticView>::empty()
        } else if tokens[next].ty == TokenType::Comma {
            lemma_fn_args_errors_renderable(source, tokens, next + 1);
            fn_args_errors_from(tokens, next + 1)
        } else {
            seq![missing(tokens, next, "`,`"@)]
        };
        lemma_all_renderable_add(source, fn_arg_errors(tokens, pos), rest);
    }
}

/// What is reported for a declaration among tokens of `source` can be
/// rendered.
pub proof fn lemma_decl_errors_renderable(source: Source, tokens: Seq<TokenTreeView>, pos: int)
    requires
        trees_match_source(source, tokens),
        0 <= pos < tokens.len(),
    ensures
        all_renderable_in(source, decl_errors(tokens, pos)),
{
    let after_name = skip(tokens, pos + 1, TokenType::Ident);
    let after_args = fn_args_at(tokens, after_name).1;
    let after_return_ty = fn_return_ty_at(tokens, after_args).1;
    lemma_missing_renderable(source, tokens, pos, "a declaration"@);
    lemma_missing_renderable(source, tokens, pos + 1, "the name of the function"@);
    lemma_missing_renderable(source, tokens, after_name, "the arguments of the function"@);
    lemma_missing_renderable(source, tokens, after_args + 1, "a type"@);
    lemma_missing_renderable(source, tokens, after_return_ty, "a block"@);
    if is_at(tokens, after_name, TokenType::Parens) {
        lemma_token_in_source(source, tokens, after_name);
        lemma_fn_args_errors_renderable(source, tokens[after_name].children, 0);
    }
    let name_errors = expect_errors(
        tokens,
        pos + 1,
        TokenType::Ident,
        "the name of the function"@,
    );
    lemma_all_renderable_add(source, name_errors, fn_args_errors(tokens, after_name));
    lemma_all_renderable_add(
        source,
        name_errors + fn_args_errors(tokens, after_name),
        fn_return_ty_errors(tokens, after_args),
    );
    lemma_all_renderable_add(
        source,
        name_errors + fn_args_errors(tokens, after_name) + fn_return_ty_errors(tokens, after_args),
        block_errors(tokens, after_return_ty),
    );
}

/// The syntax errors of a file of `source` can be rendered.
pub proof fn lemma_file_errors_renderable(source: Source, tokens: Seq<TokenTreeView>, pos: int)
    requires
        trees_match_source(source, tokens),
        0 <= pos,
    ensures
        all_renderable_in(source, file_errors_from(tokens, pos)),
    decreases tokens.len() - pos,
{
    if pos < tokens.len() {
        lemma_decl_advances(tokens, pos);
        lemma_decl_errors_renderable(source, tokens, pos);
        lemma_file_errors_renderable(source, tokens, decl_at(tokens, pos).1);
        lemma_all_renderable_add(
            source,
            decl_errors(tokens, pos),
            file_errors_from(tokens, decl_at(tokens, pos).1),
        );
    }
}

/// An argument list that fails reports it.
pub proof fn lemma_fn_args_failure_is_reported(
    tokens: Seq<TokenTreeView>,
    pos: int,
    args: Seq<FnArgAst>,
)
    requires
        0 <= pos,
        fn_args_from(tokens, pos, args) is Err,
    ensures
        fn_args_errors_from(tokens, pos).len() > 0,
    decreases tokens.len() - pos,
{
    if pos < tokens.len() {
        let next = after_fn_arg(tokens, pos);
        lemma_after_fn_arg(tokens, pos);
        if next < tokens.len() && tokens[next].ty == TokenType::Comma {
            let found = match fn_arg_at(tokens, pos).0 {
                Ok(arg) => args.push(arg),
                Err(_) => args,
            };
            lemma_fn_args_failure_is_reported(tokens, next + 1, found);
        }
    }
}

/// No failure is silent: a declaration that fails reports at least one
/// diagnostic, so that a file without syntax errors holds every
/// declaration of the text.
pub proof fn lemma_failure_is_reported(tokens: Seq<TokenTreeView>, pos: int)
    requires
        0 <= pos < tokens.len(),
        decl_at(tokens, pos).0 is Err,
    ensures
        decl_errors(tokens, pos).len() > 0,
{
    if is_at(tokens, pos, TokenType::Fn) {
        let after_name = skip(tokens, pos + 1, TokenType::Ident);
        if is_at(tokens, after_name, TokenType::Parens) && fn_args_at(tokens, after_name).0 is Err {
            lemma_fn_args_failure_is_reported(tokens[after_name].children, 0, Seq::empty());
        }
    }
}

/// A read-only view of a slice of sibling tokens, with a position.
pub struct Cursor<'a> {
    tokens: &'a [TokenTree],
    pos: usize,
}

impl<'a> Cursor<'a> {
    /// The position is not beyond the end.
    #[verifier::type_invariant]
    pub closed spec fn wf(&self) -> bool {
        self.pos <= self.tokens@.len()
    }

    /// The tokens that the cursor walks.
    pub closed spec fn tokens(&self) -> Seq<TokenTreeView> {
        tree_views(self.tokens@)
    }

    /// The index of the current token.
    pub closed spec fn pos(&self) -> int {
        self.pos as int
    }

    /// Whether all tokens have been consumed.
    pub open spec fn spec_is_eof(&self) -> bool {
        self.pos() >= self.tokens().len()
    }

    /// Whether the current token is of type `ty`.
    pub open spec fn spec_peek_is(&self, ty: TokenType) -> bool {
        is_at(self.tokens(), self.pos(), ty)
    }

    /// A cursor at the first of `tokens`.
    pub fn new(tokens: &'a [TokenTree]) -> (cursor: Self)
        ensures
            cursor.tokens() == tree_views(tokens@),
            cursor.pos() == 0,
    {
        Self { tokens, pos: 0 }
    }

    /// The position is between the start and the end of the tokens.
    pub fn position(&self) -> (pos: usize)
        ensures
            pos == self.pos(),
            0 <= self.pos() <= self.tokens().len(),
    {
        proof {
            use_type_invariant(self);
        }
        self.pos
    }

    /// The current token, without consuming it.
    pub fn peek(&self) -> (token: &'a TokenTree)
        requires
            !self.is_eof(),
        ensures
            token@ == self.tokens()[self.pos()],
    {
        &self.tokens[self.pos]
    }

    /// Consumes the current token.
    pub fn pop(&mut self) -> (token: &'a TokenTree)
        requires
            !old(self).is_eof(),
        ensures
            token@ == old(self).tokens()[old(self).pos()],
            final(self).tokens() == old(self).tokens(),
            final(self).pos() == old(self).pos() + 1,
    {
        proof {
            assert(self.tokens@.len() == self.tokens.len());
        }
        self.pos += 1;
        &self.tokens[self.pos - 1]
    }

    /// Whether the current token is of type `ty`.
    #[verifier::when_used_as_spec(spec_peek_is)]
    pub fn peek_is(&self, ty: TokenType) -> (b: bool)
        ensures
            b == self.spec_peek_is(ty),
    {
        !self.is_eof() && self.peek().ty() == ty
    }

    /// Whether all tokens have been consumed.
    #[verifier::when_used_as_spec(spec_is_eof)]
    pub fn is_eof(&self) -> (b: bool)
        ensures
            b == self.spec_is_eof(),
    {
        self.pos >= self.tokens.len()
    }

    /// Consumes the current token, which is of type `ty`.
    pub fn pop_assert(&mut self, ty: TokenType) -> (token: &'a TokenTree)
        requires
            old(self).peek_is(ty),
        ensures
            token@ == old(self).tokens()[old(self).pos()],
            final(self).tokens() == old(self).tokens(),
            final(self).pos() == old(self).pos() + 1,
    {
        self.pop()
    }

    /// Consumes the current token if it is of type `ty`, and fails if it
    /// is not.
    pub fn pop_expect(&mut self, ty: TokenType) -> (token: PResult<&'a TokenTree>)
        ensures
            final(self).tokens() == old(self).tokens(),
            final(self).pos() == skip(old(self).tokens(), old(self).pos(), ty),
            match token {
                Ok(token) => old(self).peek_is(ty) && token@ == old(self).tokens()[old(self).pos()],
                Err(status) => !old(self).peek_is(ty) && status == SyncStatus::Unsynced,
            },
    {
        if self.peek_is(ty) {
            Ok(self.pop())
        } else {
            Err(SyncStatus::Unsynced)
        }
    }

    /// Consumes the current token if it is of type `ty`.
    pub fn pop_if(&mut self, ty: TokenType) -> (token: Option<&'a TokenTree>)
        ensures
            final(self).tokens() == old(self).tokens(),
            final(self).pos() == skip(old(self).tokens(), old(self).pos(), ty),
            match token {
                Some(token) => old(self).peek_is(ty) && token@ == old(self).tokens()[old(
                    self,
                ).pos()],
                None => !old(self).peek_is(ty),
            },
    {
        if self.peek_is(ty) {
            Some(self.pop())
        } else {
            None
        }
    }

    /// What stands at the cursor, for a diagnostic: the current token, or
    /// behind the last token the end of the tokens.
    pub fn found(&self) -> (found: Found)
        ensures
            found == found_at(self.tokens(), self.pos()),
    {
        proof {
            use_type_invariant(self);
        }
        if self.pos < self.tokens.len() {
            Found::Token(mark(&self.tokens[self.pos]))
        } else if self.pos > 0 {
            let end = self.tokens[self.pos - 1].span().end();
            Found::End(Span::new(end, end))
        } else {
            Found::Nothing
        }
    }

    /// Discards tokens until the current token has one of the types
    /// `sync_tokens`, or all are consumed.
    pub fn sync_to(&mut self, sync_tokens: &[TokenType])
        ensures
            final(self).tokens() == old(self).tokens(),
            final(self).pos() == sync_point(old(self).tokens(), old(self).pos(), sync_tokens@),
            old(self).pos() <= final(self).pos() <= old(self).tokens().len(),
            final(self).pos() > old(self).pos() || old(self).is_eof() || sync_tokens@.contains(
                old(self).tokens()[old(self).pos()].ty,
            ),
    {
        proof {
            use_type_invariant(&*self);
            lemma_sync_point(self.tokens(), self.pos(), sync_tokens@);
        }
        while !self.is_eof() && !contains_ty(sync_tokens, self.peek().ty())
            invariant
                self.tokens() == old(self).tokens(),
                old(self).pos() <= self.pos() <= self.tokens().len(),
                sync_point(self.tokens(), self.pos(), sync_tokens@) == sync_point(
                    old(self).tokens(),
                    old(self).pos(),
                    sync_tokens@,
                ),
            decreases self.tokens().len() - self.pos(),
        {
            self.pop();
        }
    }
}

/// What marks `token` in a diagnostic.
fn mark(token: &TokenTree) -> (span: Span)
    ensures
        span == mark_of(token@),
{
    let span = token.span();
    proof {
        use_type_invariant(span);
        lemma_span_eq(span);
    }
    if token.ty().is_nested() {
        let start = span.start();
        let end = span.end();
        let stop: usize = if start.byte() < end.byte() {
            start.byte() + 1
        } else {
            end.byte()
        };
        Span::new(start, SourcePos::new(start.src_id(), stop))
    } else {
        span
    }
}

/// Appends to `diags` the diagnostic for `what` that is expected where
/// `cursor` stands and is not there.
fn report(cursor: &Cursor, what: &str, diags: &mut Vec<Diagnostic>)
    ensures
        diagnostic_views(final(diags)@) == diagnostic_views(old(diags)@) + seq![
            missing(cursor.tokens(), cursor.pos(), what@),
        ],
{
    let diagnostic = expected(what, cursor.found());
    diags.push(diagnostic);
    assert(diagnostic_views(diags@) =~= diagnostic_views(old(diags)@) + seq![diagnostic@]);
}

/// Consumes the current token if it is of type `ty`; reports that `what`
/// is expected, and fails, if it is not.
fn expect<'a>(cursor: &mut Cursor<'a>, ty: TokenType, what: &str, diags: &mut Vec<Diagnostic>) -> (token:
    PResult<&'a TokenTree>)
    ensures
        final(cursor).tokens() == old(cursor).tokens(),
        final(cursor).pos() == skip(old(cursor).tokens(), old(cursor).pos(), ty),
        match token {
            Ok(token) => old(cursor).peek_is(ty) && token@ == old(cursor).tokens()[old(
                cursor,
            ).pos()],
            Err(status) => !old(cursor).peek_is(ty) && status == SyncStatus::Unsynced,
        },
        diagnostic_views(final(diags)@) == diagnostic_views(old(diags)@) + expect_errors(
            old(cursor).tokens(),
            old(cursor).pos(),
            ty,
            what@,
        ),
{
    if !cursor.peek_is(ty) {
        report(cursor, what, diags);
    } else {
        assert(diagnostic_views(diags@) + Seq::<DiagnosticView>::empty() =~= diagnostic_views(
            diags@,
        ));
    }
    cursor.pop_expect(ty)
}

/// Whether `ty` is one of `types`.
fn contains_ty(types: &[TokenType], ty: TokenType) -> (b: bool)
    ensures
        b == types@.contains(ty),
{
    let mut i: usize = 0;
    while i < types.len()
        invariant
            i <= types@.len(),
            forall|k: int| 0 <= k < i ==> types@[k] != ty,
        decreases types@.len() - i,
    {
        if types[i] == ty {
            return true;
        }
        i += 1;
    }
    false
}


/// Parses the text of `source`: the file where neither the lexer nor the
/// parser finds an error. Otherwise the diagnostics: those of the lexer
/// where it finds any, else those of the parser. No file comes back with
/// diagnostics, and each diagnostic can be rendered.
pub fn parse_source(source: &Source) -> (result: FResult<FileAst>)
    ensures
        match result {
            Ok(file) => {
                &&& errors_in(*source, lex(source.bytes(), source.id())).len() == 0
                &&& file_errors(lex(source.bytes(), source.id())).len() == 0
                &&& file@ == file_of(lex(source.bytes(), source.id()))
                &&& file_in_source(*source, file@)
            },
            Err(errors) => {
                &&& diagnostic_views(errors@) == source_errors(*source)
                &&& errors@.len() > 0
                &&& forall|i: int|
                    0 <= i < errors@.len() ==> renderable_in(*source, (#[trigger] errors@[i])@)
            },
        },
{
    let lexed = match lex_source(source) {
        Ok(lexed) => lexed,
        Err(errors) => {
            return Err(errors);
        },
    };

    let ghost tokens = lex(source.bytes(), source.id());
    proof {
        use_type_invariant(source);
        source.lemma_text();
        lemma_lex_matches_text(source.bytes(), source.id());
        lemma_decls_in_source(*source, tokens, 0);
        lemma_file_errors_renderable(*source, tokens, 0);
    }
    let mut cursor = Cursor::new(lexed.as_slice());
    let mut diagnostics: Vec<Diagnostic> = Vec::new();
    let parsed = parse_file(&mut cursor, &mut diagnostics);
    proof {
        assert(diagnostic_views(diagnostics@) =~= file_errors(tokens));
        assert forall|i: int| 0 <= i < diagnostics@.len() implies renderable_in(
            *source,
            (#[trigger] diagnostics@[i])@,
        ) by {
            assert(diagnostic_views(diagnostics@)[i] == diagnostics@[i]@);
        }
    }

    match parsed {
        Ok(file) => {
            if diagnostics.is_empty() {
                Ok(file)
            } else {
                Err(diagnostics)
            }
        },
        Err(_) => Err(diagnostics),
    }
}

/// Reads declarations until all tokens are consumed. The file holds the
/// declarations that do not fail; what is reported goes to `diags`.
pub fn parse_file(cursor: &mut Cursor, diags: &mut Vec<Diagnostic>) -> (file: PResult<FileAst>)
    ensures
        final(cursor).tokens() == old(cursor).tokens(),
        final(cursor).is_eof(),
        diagnostic_views(final(diags)@) == diagnostic_views(old(diags)@) + file_errors_from(
            old(cursor).tokens(),
            old(cursor).pos(),
        ),
        match file {
            Ok(file) => file@.declarations == decls_from(old(cursor).tokens(), old(cursor).pos()),
            Err(_) => false,
        },
{
    let ghost tokens = cursor.tokens();
    let ghost start = cursor.pos();
    let ghost before = diagnostic_views(diags@);
    let mut declarations: Vec<DeclarationAst> = Vec::new();
    let ghost mut found: Seq<DeclarationView> = Seq::empty();
    proof {
        assert(found + decls_from(tokens, start) =~= decls_from(tokens, start));
    }

    while !cursor.is_eof()
        invariant
            cursor.tokens() == tokens,
            found == declarations@.map_values(|decl: DeclarationAst| decl@),
            found + decls_from(tokens, cursor.pos()) == decls_from(tokens, start),
            diagnostic_views(diags@) + file_errors_from(tokens, cursor.pos()) == before
                + file_errors_from(tokens, start),
        decreases tokens.len() - cursor.pos(),
    {
        let ghost pos = cursor.pos();
        let ghost reported = diagnostic_views(diags@);
        let decl = parse_decl(cursor, diags);
        proof {
            assert((reported + decl_errors(tokens, pos)) + file_errors_from(tokens, cursor.pos())
                =~= reported + (decl_errors(tokens, pos) + file_errors_from(
                tokens,
                cursor.pos(),
            )));
        }
        match decl {
            Ok(decl) => {
                declarations.push(decl);
                proof {
                    let rest = decls_from(tokens, cursor.pos());
                    assert((found + seq![decl@]) + rest =~= found + (seq![decl@] + rest));
                    found = found + seq![decl@];
                    assert(found =~= declarations@.map_values(|decl: DeclarationAst| decl@));
                }
            },
            Err(_) => {},
        }
    }
    proof {
        assert(found + decls_from(tokens, cursor.pos()) =~= found);
        assert(diagnostic_views(diags@) + file_errors_from(tokens, cursor.pos())
            =~= diagnostic_views(diags@));
    }

    let file = FileAst { declarations };
    Ok(file)
}

/// Reads one declaration. Where that fails, the cursor is moved on to the
/// next keyword `fn`, or to the end. Either way the cursor moves forward.
pub fn parse_decl(cursor: &mut Cursor, diags: &mut Vec<Diagnostic>) -> (decl: PResult<
    DeclarationAst,
>)
    ensures
        final(cursor).tokens() == old(cursor).tokens(),
        diagnostic_views(final(diags)@) == diagnostic_views(old(diags)@) + decl_errors(
            old(cursor).tokens(),
            old(cursor).pos(),
        ),
        final(cursor).pos() == decl_at(old(cursor).tokens(), old(cursor).pos()).1,
        match decl {
            Ok(decl) => decl_at(old(cursor).tokens(), old(cursor).pos()).0 == Ok::<
                DeclarationView,
                SyncStatus,
            >(decl@),
            Err(status) => decl_at(old(cursor).tokens(), old(cursor).pos()).0 == Err::<
                DeclarationView,
                SyncStatus,
            >(status),
        },
        !old(cursor).is_eof() ==> old(cursor).pos() < final(cursor).pos(),
        final(cursor).pos() <= final(cursor).tokens().len(),
{
    proof {
        use_type_invariant(&*cursor);
        if !cursor.is_eof() {
            lemma_decl_advances(cursor.tokens(), cursor.pos());
        } else {
            lemma_sync_point(cursor.tokens(), cursor.pos(), seq![TokenType::Fn]);
        }
    }
    let decl = if cursor.peek_is(TokenType::Fn) {
        match parse_fn(cursor, diags) {
            Ok(decl) => Ok(DeclarationAst::FnDecl(decl)),
            Err(status) => Err(status),
        }
    } else {
        report(cursor, "a declaration", diags);
        Err(SyncStatus::Unsynced)
    };

    match decl {
        Err(SyncStatus::Unsynced) => {
            let sync = [TokenType::Fn];
            assert(sync@ =~= seq![TokenType::Fn]);
            cursor.sync_to(&sync);
            Err(SyncStatus::Synced)
        },
        decl => decl,
    }
}

/// Reads one function argument: a name, a colon and a type.
pub fn parse_fn_arg(cursor: &mut Cursor, diags: &mut Vec<Diagnostic>) -> (arg: PResult<FnArgAst>)
    ensures
        final(cursor).tokens() == old(cursor).tokens(),
        diagnostic_views(final(diags)@) == diagnostic_views(old(diags)@) + fn_arg_errors(
            old(cursor).tokens(),
            old(cursor).pos(),
        ),
        (arg, final(cursor).pos()) == fn_arg_at(old(cursor).tokens(), old(cursor).pos()),
{
    let ghost before = diagnostic_views(diags@);
    proof {
        assert(before + Seq::<DiagnosticView>::empty() =~= before);
    }
    let name = expect(cursor, TokenType::Ident, "the name of an argument", diags)?;
    let colon = expect(cursor, TokenType::Colon, "`:`", diags)?;
    let ty = parse_ty(cursor, diags)?;

    Ok(FnArgAst { name: name.span(), colon: colon.span(), ty })
}

/// Reads the argument list of a function: a group in parentheses that
/// holds arguments with commas between them. An argument that fails is
/// reported and left out of the list.
pub fn parse_fn_args(cursor: &mut Cursor, diags: &mut Vec<Diagnostic>) -> (args: PResult<
    Vec<FnArgAst>,
>)
    ensures
        final(cursor).tokens() == old(cursor).tokens(),
        diagnostic_views(final(diags)@) == diagnostic_views(old(diags)@) + fn_args_errors(
            old(cursor).tokens(),
            old(cursor).pos(),
        ),
        final(cursor).pos() == fn_args_at(old(cursor).tokens(), old(cursor).pos()).1,
        match args {
            Ok(args) => fn_args_at(old(cursor).tokens(), old(cursor).pos()).0 == Ok::<
                Seq<FnArgAst>,
                SyncStatus,
            >(args@),
            Err(status) => fn_args_at(old(cursor).tokens(), old(cursor).pos()).0 == Err::<
                Seq<FnArgAst>,
                SyncStatus,
            >(status),
        },
{
    let ghost before = diagnostic_views(diags@);
    let args_tokens = expect(
        cursor,
        TokenType::Parens,
        "the arguments of the function",
        diags,
    )?;
    let mut cursor = Cursor::new(args_tokens.children());
    let ghost tokens = cursor.tokens();
    let ghost total = fn_args_errors_from(tokens, 0);
    proof {
        assert(before + Seq::<DiagnosticView>::empty() =~= before);
    }

    let mut args: Vec<FnArgAst> = Vec::new();

    loop
        invariant_except_break
            fn_args_from(tokens, cursor.pos(), args@) == fn_args_from(tokens, 0, Seq::empty()),
            diagnostic_views(diags@) + fn_args_errors_from(tokens, cursor.pos()) == before + total,
        invariant
            cursor.tokens() == tokens,
            0 <= cursor.pos() <= tokens.len(),
        ensures
            fn_args_from(tokens, 0, Seq::empty()) == if cursor.is_eof() {
                Ok::<Seq<FnArgAst>, SyncStatus>(args@)
            } else {
                Err::<Seq<FnArgAst>, SyncStatus>(SyncStatus::Unsynced)
            },
            before + total == diagnostic_views(diags@) + if cursor.is_eof() {
                Seq::<DiagnosticView>::empty()
            } else {
                seq![missing(tokens, cursor.pos(), "`,`"@)]
            },
        decreases tokens.len() - cursor.pos(),
    {
        if cursor.is_eof() {
            break ;
        }
        let ghost pos = cursor.pos();
        let ghost reported = diagnostic_views(diags@);
        proof {
            lemma_after_fn_arg(tokens, cursor.pos());
        }
        match parse_fn_arg(&mut cursor, diags) {
            Ok(arg) => args.push(arg),
            Err(SyncStatus::Synced) => {},
            Err(SyncStatus::Unsynced) => {
                let sync = [TokenType::Comma];
                assert(sync@ =~= seq![TokenType::Comma]);
                cursor.sync_to(&sync);
            },
        }
        let ghost next = cursor.pos();
        proof {
            let rest = if next >= tokens.len() {
                Seq::<DiagnosticView>::empty()
            } else if tokens[next].ty == TokenType::Comma {
                fn_args_errors_from(tokens, next + 1)
            } else {
                seq![missing(tokens, next, "`,`"@)]
            };
            assert(fn_args_errors_from(tokens, pos) == fn_arg_errors(tokens, pos) + rest);
            assert((reported + fn_arg_errors(tokens, pos)) + rest =~= reported + (fn_arg_errors(
                tokens,
                pos,
            ) + rest));
        }

        if cursor.pop_if(TokenType::Comma).is_none() {
            break ;
        }
    }

    if !cursor.is_eof() {
        // Something other than a comma follows an argument.
        report(&cursor, "`,`", diags);
        return Err(SyncStatus::Unsynced);
    }
    proof {
        assert(diagnostic_views(diags@) + Seq::<DiagnosticView>::empty() =~= diagnostic_views(
            diags@,
        ));
    }
    Ok(args)
}

/// Reads the return type of a function, if an arrow announces one.
pub fn parse_fn_return_ty(cursor: &mut Cursor, diags: &mut Vec<Diagnostic>) -> (return_ty: PResult<
    Option<FnReturnTypeAst>,
>)
    ensures
        final(cursor).tokens() == old(cursor).tokens(),
        diagnostic_views(final(diags)@) == diagnostic_views(old(diags)@) + fn_return_ty_errors(
            old(cursor).tokens(),
            old(cursor).pos(),
        ),
        (return_ty, final(cursor).pos()) == fn_return_ty_at(
            old(cursor).tokens(),
            old(cursor).pos(),
        ),
{
    proof {
        assert(diagnostic_views(diags@) + Seq::<DiagnosticView>::empty() =~= diagnostic_views(
            diags@,
        ));
    }
    let r_arrow = match cursor.pop_if(TokenType::RArrow) {
        Some(r_arrow) => r_arrow,
        None => {
            return Ok(None);
        },
    };
    let ty = parse_ty(cursor, diags);

    Ok(Some(FnReturnTypeAst { r_arrow: r_arrow.span(), ty: ty? }))
}

/// Reads a function declaration, whose keyword `fn` is the current token.
pub fn parse_fn(cursor: &mut Cursor, diags: &mut Vec<Diagnostic>) -> (decl: PResult<FnDeclAst>)
    requires
        old(cursor).peek_is(TokenType::Fn),
    ensures
        final(cursor).tokens() == old(cursor).tokens(),
        diagnostic_views(final(diags)@) == diagnostic_views(old(diags)@) + fn_errors(
            old(cursor).tokens(),
            old(cursor).pos(),
        ),
        final(cursor).pos() == fn_at(old(cursor).tokens(), old(cursor).pos()).1,
        match decl {
            Ok(decl) => fn_at(old(cursor).tokens(), old(cursor).pos()).0 == Ok::<
                FnDeclView,
                SyncStatus,
            >(decl@),
            Err(status) => fn_at(old(cursor).tokens(), old(cursor).pos()).0 == Err::<
                FnDeclView,
                SyncStatus,
            >(status),
        },
{
    let ghost tokens = cursor.tokens();
    let ghost pos = cursor.pos();
    let ghost before = diagnostic_views(diags@);
    let fn_kew = cursor.pop_assert(TokenType::Fn);
    let name_ident = expect(cursor, TokenType::Ident, "the name of the function", diags);
    let args = parse_fn_args(cursor, diags);
    let return_ty = parse_fn_return_ty(cursor, diags);
    let body = parse_block(cursor, diags);
    proof {
        let after_name = skip(tokens, pos + 1, TokenType::Ident);
        let after_args = fn_args_at(tokens, after_name).1;
        let after_return_ty = fn_return_ty_at(tokens, after_args).1;
        let name_errors = expect_errors(
            tokens,
            pos + 1,
            TokenType::Ident,
            "the name of the function"@,
        );
        assert(diagnostic_views(diags@) =~= before + (name_errors + fn_args_errors(
            tokens,
            after_name,
        ) + fn_return_ty_errors(tokens, after_args) + block_errors(tokens, after_return_ty)));
    }

    Ok(
        FnDeclAst {
            // If we found the body we are probably synchronized.
            body: body?,
            // Otherwise give up.
            fn_kw: fn_kew.span(),
            name_ident: name_ident?.span(),
            args: args?,
            return_ty: return_ty?,
        },
    )
}

/// Reads a block: a group in curly brackets. What the group holds is not
/// read.
pub fn parse_block(cursor: &mut Cursor, diags: &mut Vec<Diagnostic>) -> (block: PResult<BlockAst>)
    ensures
        final(cursor).tokens() == old(cursor).tokens(),
        diagnostic_views(final(diags)@) == diagnostic_views(old(diags)@) + block_errors(
            old(cursor).tokens(),
            old(cursor).pos(),
        ),
        final(cursor).pos() == block_at(old(cursor).tokens(), old(cursor).pos()).1,
        match block {
            Ok(block) => block_at(old(cursor).tokens(), old(cursor).pos()).0 == Ok::<
                BlockView,
                SyncStatus,
            >(block@),
            Err(status) => block_at(old(cursor).tokens(), old(cursor).pos()).0 == Err::<
                BlockView,
                SyncStatus,
            >(status),
        },
{
    let _ = expect(cursor, TokenType::CurlyBrackets, "a block", diags)?;
    Ok(BlockAst { statements: Vec::new(), return_expr: None })
}

/// Reads a type: its name.
pub fn parse_ty(cursor: &mut Cursor, diags: &mut Vec<Diagnostic>) -> (ty: PResult<TypeAst>)
    ensures
        final(cursor).tokens() == old(cursor).tokens(),
        diagnostic_views(final(diags)@) == diagnostic_views(old(diags)@) + ty_errors(
            old(cursor).tokens(),
            old(cursor).pos(),
        ),
        (ty, final(cursor).pos()) == ty_at(old(cursor).tokens(), old(cursor).pos()),
{
    let name = expect(cursor, TokenType::Ident, "a type", diags);
    Ok(TypeAst { name_ident: name?.span() })
}

} // verus!

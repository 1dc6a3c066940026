//! The abstract syntax tree. Every node keeps the spans of its significant
//! tokens.

use crate::source_map::{Source, Span};
use vstd::prelude::*;

verus! {

/// A source file: its declarations, in order.
#[derive(Debug)]
pub struct FileAst {
    pub declarations: Vec<DeclarationAst>,
}

/// A declaration at the top level of a file.
#[derive(Debug)]
pub enum DeclarationAst {
    FnDecl(FnDeclAst),
}

/// `fn name(args) -> return_ty body`
#[derive(Debug)]
pub struct FnDeclAst {
    pub fn_kw: Span,
    pub name_ident: Span,
    pub args: Vec<FnArgAst>,
    pub return_ty: Option<FnReturnTypeAst>,
    pub body: BlockAst,
}

/// `name: ty`
#[derive(Debug)]
pub struct FnArgAst {
    pub name: Span,
    pub colon: Span,
    pub ty: TypeAst,
}

/// `-> ty`
#[derive(Debug)]
pub struct FnReturnTypeAst {
    pub r_arrow: Span,
    pub ty: TypeAst,
}

/// `{ statements return_expr }`
#[derive(Debug)]
pub struct BlockAst {
    pub statements: Vec<StatementAst>,
    pub return_expr: Option<ExpressionAst>,
}

/// A statement of a block.
#[derive(Debug)]
pub enum StatementAst {
    Semicolon(Span),
    LetStatement(LetStatementAst),
    ExpressionStatement(ExpressionStatementAst),
}

/// `let name_ident type_annotation = value;`
#[derive(Debug)]
pub struct LetStatementAst {
    pub let_kw: Span,
    pub name_ident: Span,
    pub type_annotation: Option<TypeAnnotationAst>,
    pub equals: Span,
    pub value: ExpressionAst,
    pub semicolon: Span,
}

/// `: ty`
#[derive(Debug)]
pub struct TypeAnnotationAst {
    pub colon: Span,
    pub ty: TypeAst,
}

/// `expr;`
#[derive(Debug)]
pub struct ExpressionStatementAst {
    pub expr: ExpressionAst,
    pub semicolon: Option<Span>,
}

/// An expression: for now, a single token.
#[derive(Debug)]
pub enum ExpressionAst {
    Ident(Span),
    IntLit(Span),
}

/// `if condition body`
#[derive(Debug)]
pub struct IfExprAst {
    pub if_kw: Span,
    pub condition: ExpressionAst,
    pub body: BlockAst,
}

/// The name of a type.
#[derive(Debug)]
pub struct TypeAst {
    pub name_ident: Span,
}

/// What a `BlockAst` holds.
pub struct BlockView {
    pub statements: Seq<StatementAst>,
    pub return_expr: Option<ExpressionAst>,
}

impl BlockView {
    /// The block without statements.
    pub open spec fn empty() -> BlockView {
        BlockView { statements: Seq::empty(), return_expr: None }
    }
}

impl View for BlockAst {
    type V = BlockView;

    open spec fn view(&self) -> BlockView {
        BlockView { statements: self.statements@, return_expr: self.return_expr }
    }
}

/// What a `FnDeclAst` holds.
pub struct FnDeclView {
    pub fn_kw: Span,
    pub name_ident: Span,
    pub args: Seq<FnArgAst>,
    pub return_ty: Option<FnReturnTypeAst>,
    pub body: BlockView,
}

impl View for FnDeclAst {
    type V = FnDeclView;

    open spec fn view(&self) -> FnDeclView {
        FnDeclView {
            fn_kw: self.fn_kw,
            name_ident: self.name_ident,
            args: self.args@,
            return_ty: self.return_ty,
            body: self.body@,
        }
    }
}

/// What a `DeclarationAst` holds.
pub enum DeclarationView {
    FnDecl(FnDeclView),
}

impl View for DeclarationAst {
    type V = DeclarationView;

    open spec fn view(&self) -> DeclarationView {
        match self {
            DeclarationAst::FnDecl(decl) => DeclarationView::FnDecl(decl@),
        }
    }
}

/// What a `FileAst` holds.
pub struct FileView {
    pub declarations: Seq<DeclarationView>,
}

impl View for FileAst {
    type V = FileView;

    open spec fn view(&self) -> FileView {
        FileView {
            declarations: self.declarations@.map_values(|decl: DeclarationAst| decl@),
        }
    }
}


/// The spans of `ty` are spans of `source`.
pub open spec fn ty_in_source(source: Source, ty: TypeAst) -> bool {
    source.valid_span(ty.name_ident)
}

/// The spans of `arg` are spans of `source`.
pub open spec fn fn_arg_in_source(source: Source, arg: FnArgAst) -> bool {
    &&& source.valid_span(arg.name)
    &&& source.valid_span(arg.colon)
    &&& ty_in_source(source, arg.ty)
}

/// The spans of `decl` are spans of `source`.
pub open spec fn fn_decl_in_source(source: Source, decl: FnDeclView) -> bool {
    &&& source.valid_span(decl.fn_kw)
    &&& source.valid_span(decl.name_ident)
    &&& forall|i: int| 0 <= i < decl.args.len() ==> fn_arg_in_source(source, #[trigger] decl.args[i])
    &&& match decl.return_ty {
        Some(return_ty) => source.valid_span(return_ty.r_arrow) && ty_in_source(
            source,
            return_ty.ty,
        ),
        None => true,
    }
}

/// The spans of `decl` are spans of `source`.
pub open spec fn decl_in_source(source: Source, decl: DeclarationView) -> bool {
    match decl {
        DeclarationView::FnDecl(decl) => fn_decl_in_source(source, decl),
    }
}

/// The spans of the declarations of `file` are spans of `source`.
pub open spec fn file_in_source(source: Source, file: FileView) -> bool {
    forall|i: int|
        0 <= i < file.declarations.len() ==> decl_in_source(source, #[trigger] file.declarations[i])
}


impl FnArgAst {
    /// Whether the spans of the argument are spans of `source`.
    pub fn is_in_source(&self, source: &Source) -> (b: bool)
        ensures
            b == fn_arg_in_source(*source, *self),
    {
        source.contains_span(self.name) && source.contains_span(self.colon) && source.contains_span(
            self.ty.name_ident,
        )
    }
}

impl FnDeclAst {
    /// Whether the spans of the declaration are spans of `source`.
    pub fn is_in_source(&self, source: &Source) -> (b: bool)
        ensures
            b == fn_decl_in_source(*source, self@),
    {
        if !source.contains_span(self.fn_kw) || !source.contains_span(self.name_ident) {
            return false;
        }
        match &self.return_ty {
            Some(return_ty) => {
                if !source.contains_span(return_ty.r_arrow) || !source.contains_span(
                    return_ty.ty.name_ident,
                ) {
                    return false;
                }
            },
            None => {},
        }
        let mut i: usize = 0;
        while i < self.args.len()
            invariant
                i <= self.args@.len(),
                forall|k: int| 0 <= k < i ==> fn_arg_in_source(*source, #[trigger] self@.args[k]),
            decreases self.args@.len() - i,
        {
            if !self.args[i].is_in_source(source) {
                assert(!fn_arg_in_source(*source, self@.args[i as int]));
                return false;
            }
            i += 1;
        }
        true
    }
}

impl FileAst {
    /// Whether the spans of the declarations are spans of `source`.
    pub fn is_in_source(&self, source: &Source) -> (b: bool)
        ensures
            b == file_in_source(*source, self@),
    {
        let mut i: usize = 0;
        while i < self.declarations.len()
            invariant
                i <= self.declarations@.len(),
                forall|k: int|
                    0 <= k < i ==> decl_in_source(*source, #[trigger] self@.declarations[k]),
            decreases self.declarations@.len() - i,
        {
            let in_source = match &self.declarations[i] {
                DeclarationAst::FnDecl(decl) => decl.is_in_source(source),
            };
            assert(self@.declarations[i as int] == self.declarations@[i as int]@);
            if !in_source {
                assert(!decl_in_source(*source, self@.declarations[i as int]));
                return false;
            }
            i += 1;
        }
        true
    }
}

} // verus!

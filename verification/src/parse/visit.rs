//! Dumping a syntax tree as text, for debugging.

use super::ast::{
    decl_in_source, file_in_source, fn_arg_in_source, fn_decl_in_source, ty_in_source, BlockAst,
    BlockView, DeclarationAst, DeclarationView, FileAst, FileView, FnArgAst, FnDeclAst,
    FnDeclView, FnReturnTypeAst, TypeAst,
};
use crate::source_map::Source;
use crate::utils::tree_writer::{string_views, TreePrinter, WriterView};
use vstd::prelude::*;
use vstd::string::*;

verus! {

/// The text of a type: its name.
pub open spec fn ty_text(source: Source, ty: TypeAst) -> Seq<char> {
    source.text_of(ty.name_ident)
}

/// The text of a function argument.
pub open spec fn fn_arg_text(source: Source, arg: FnArgAst) -> Seq<char> {
    WriterView::start("FnArg"@).field("name"@, source.text_of(arg.name)).field(
        "ty"@,
        ty_text(source, arg.ty),
    ).finish()
}

/// The text of a return type: the unit type where there is none.
pub open spec fn fn_ret_ty_text(source: Source, return_ty: Option<FnReturnTypeAst>) -> Seq<char> {
    match return_ty {
        Some(return_ty) => ty_text(source, return_ty.ty),
        None => "()"@,
    }
}

/// The text of a block.
pub open spec fn block_text(block: BlockView) -> Seq<char> {
    "Block"@
}

/// The texts of function arguments.
pub open spec fn fn_arg_texts(source: Source, args: Seq<FnArgAst>) -> Seq<Seq<char>> {
    args.map_values(|arg: FnArgAst| fn_arg_text(source, arg))
}

/// The text of a function declaration.
pub open spec fn fn_decl_text(source: Source, decl: FnDeclView) -> Seq<char> {
    WriterView::start("FnDecl"@).field("name"@, source.text_of(decl.name_ident)).field_list(
        "args"@,
        fn_arg_texts(source, decl.args),
    ).field("ret_ty"@, fn_ret_ty_text(source, decl.return_ty)).field(
        "body"@,
        block_text(decl.body),
    ).finish()
}

/// The text of a declaration.
pub open spec fn decl_text(source: Source, decl: DeclarationView) -> Seq<char> {
    match decl {
        DeclarationView::FnDecl(decl) => fn_decl_text(source, decl),
    }
}

/// The texts of declarations.
pub open spec fn decl_texts(source: Source, decls: Seq<DeclarationView>) -> Seq<Seq<char>> {
    decls.map_values(|decl: DeclarationView| decl_text(source, decl))
}

/// The text of a file.
pub open spec fn file_text(source: Source, file: FileView) -> Seq<char> {
    WriterView::start("File"@).field("filename"@, source.spec_filename()).field_list(
        "declarations"@,
        decl_texts(source, file.declarations),
    ).finish()
}

/// Appends to `wr` the text of `file`, a file of `source`.
pub fn pretty_print(file: &FileAst, source: &Source, wr: &mut String)
    requires
        file_in_source(*source, file@),
    ensures
        final(wr)@ == old(wr)@ + file_text(*source, file@),
{
    let pp = PrettyPrintAst { source };
    let text = pp.visit_file(file);
    wr.append(text.as_str());
}

/// Dumps the nodes of a syntax tree of one source.
pub struct PrettyPrintAst<'a> {
    source: &'a Source,
}

impl<'a> PrettyPrintAst<'a> {
    /// The source whose syntax trees are dumped.
    pub closed spec fn source(&self) -> Source {
        *self.source
    }

    /// A dumper for the syntax trees of `source`.
    pub fn new(source: &'a Source) -> (pp: Self)
        ensures
            pp.source() == *source,
    {
        Self { source }
    }

    /// The text of a file.
    pub fn visit_file(&self, file: &FileAst) -> (text: String)
        requires
            file_in_source(self.source(), file@),
        ensures
            text@ == file_text(self.source(), file@),
    {
        let ghost decls = file@.declarations;
        let mut texts: Vec<String> = Vec::new();
        let mut i: usize = 0;
        proof {
            assert(string_views(texts@) =~= decl_texts(self.source(), decls.take(0)));
        }
        while i < file.declarations.len()
            invariant
                i <= file.declarations@.len(),
                decls == file@.declarations,
                file_in_source(self.source(), file@),
                string_views(texts@) == decl_texts(self.source(), decls.take(i as int)),
            decreases file.declarations@.len() - i,
        {
            proof {
                assert(decls[i as int] == file.declarations@[i as int]@);
                assert(decl_in_source(self.source(), decls[i as int]));
            }
            let ghost before = string_views(texts@);
            let text = self.visit_decl(&file.declarations[i]);
            texts.push(text);
            proof {
                assert(string_views(texts@) =~= before.push(text@));
                assert(decls.take(i + 1) =~= decls.take(i as int).push(decls[i as int]));
                assert(decl_texts(self.source(), decls.take(i + 1)) =~= before.push(text@));
            }
            i += 1;
        }
        proof {
            assert(decls.take(i as int) =~= decls);
        }
        TreePrinter::start("File").field("filename", self.source.filename()).field_list(
            "declarations",
            texts.as_slice(),
        ).finish()
    }

    /// The text of a declaration.
    pub fn visit_decl(&self, decl: &DeclarationAst) -> (text: String)
        requires
            decl_in_source(self.source(), decl@),
        ensures
            text@ == decl_text(self.source(), decl@),
    {
        match decl {
            DeclarationAst::FnDecl(fn_decl_ast) => self.visit_fn_decl(fn_decl_ast),
        }
    }

    /// The text of a function declaration.
    pub fn visit_fn_decl(&self, fn_decl: &FnDeclAst) -> (text: String)
        requires
            fn_decl_in_source(self.source(), fn_decl@),
        ensures
            text@ == fn_decl_text(self.source(), fn_decl@),
    {
        let ghost args = fn_decl@.args;
        let mut texts: Vec<String> = Vec::new();
        let mut i: usize = 0;
        proof {
            assert(string_views(texts@) =~= fn_arg_texts(self.source(), args.take(0)));
        }
        while i < fn_decl.args.len()
            invariant
                i <= fn_decl.args@.len(),
                args == fn_decl@.args,
                args == fn_decl.args@,
                fn_decl_in_source(self.source(), fn_decl@),
                string_views(texts@) == fn_arg_texts(self.source(), args.take(i as int)),
            decreases fn_decl.args@.len() - i,
        {
            proof {
                assert(fn_arg_in_source(self.source(), fn_decl@.args[i as int]));
            }
            let ghost before = string_views(texts@);
            let text = self.visit_fn_arg(&fn_decl.args[i]);
            texts.push(text);
            proof {
                assert(string_views(texts@) =~= before.push(text@));
                assert(args.take(i + 1) =~= args.take(i as int).push(args[i as int]));
                assert(fn_arg_texts(self.source(), args.take(i + 1)) =~= before.push(text@));
            }
            i += 1;
        }
        proof {
            assert(args.take(i as int) =~= args);
        }
        let ret_ty = self.visit_fn_ret_ty(&fn_decl.return_ty);
        let body = self.visit_block(&fn_decl.body);
        TreePrinter::start("FnDecl").field(
            "name",
            self.source.text_of_span(fn_decl.name_ident),
        ).field_list("args", texts.as_slice()).field("ret_ty", ret_ty.as_str()).field(
            "body",
            body.as_str(),
        ).finish()
    }

    /// The text of a function argument.
    pub fn visit_fn_arg(&self, fn_arg: &FnArgAst) -> (text: String)
        requires
            fn_arg_in_source(self.source(), *fn_arg),
        ensures
            text@ == fn_arg_text(self.source(), *fn_arg),
    {
        let ty = self.visit_ty(&fn_arg.ty);
        TreePrinter::start("FnArg").field("name", self.source.text_of_span(fn_arg.name)).field(
            "ty",
            ty.as_str(),
        ).finish()
    }

    /// The text of a return type: the unit type where there is none.
    pub fn visit_fn_ret_ty(&self, fn_ret_ty: &Option<FnReturnTypeAst>) -> (text: String)
        requires
            match *fn_ret_ty {
                Some(return_ty) => ty_in_source(self.source(), return_ty.ty),
                None => true,
            },
        ensures
            text@ == fn_ret_ty_text(self.source(), *fn_ret_ty),
    {
        match fn_ret_ty {
            Some(fn_ret_ty) => self.visit_ty(&fn_ret_ty.ty),
            None => "()".to_owned(),
        }
    }

    /// The text of a block.
    pub fn visit_block(&self, block: &BlockAst) -> (text: String)
        ensures
            text@ == block_text(block@),
    {
        "Block".to_owned()
    }

    /// The text of a type: its name.
    pub fn visit_ty(&self, ty: &TypeAst) -> (text: String)
        requires
            ty_in_source(self.source(), *ty),
        ensures
            text@ == ty_text(self.source(), *ty),
    {
        self.source.text_of_span(ty.name_ident).to_owned()
    }
}

} // verus!

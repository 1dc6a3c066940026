//! Tokens and token trees, the lexer's output.

use crate::source_map::Span;
use vstd::prelude::*;

verus! {

/// Why a token is an error.
#[derive(Debug, Clone, Copy, PartialEq, Eq, Structural)]
pub enum TokenErrorTy {
    /// A character that starts no token.
    IllegalChar,
    /// An opening delimiter that is never closed.
    UnmatchedOpenParen,
    /// A closing delimiter with no delimiter open.
    UnmatchedCloseParen,
    /// A closing delimiter of another kind than the one it closes, which is
    /// at `open_span`.
    MismatchedParenTy { open_span: Span },
}

/// The lexical category of a `Token`.
///
/// Note that we don't have categories for whitespace or comments. Those are
/// discarded immediately.
#[derive(Debug, Clone, Copy, PartialEq, Eq, Structural)]
pub enum TokenType {
    Ident,
    // Literals
    IntLit,
    // Keywords
    Fn,
    Let,
    If,
    While,
    For,
    // Nested
    Parens,
    Brackets,
    CurlyBrackets,
    // Symbols
    Semicolon,
    Colon,
    Comma,
    RArrow,
    Plus,
    Minus,
    Mul,
    Div,
    Not,
    OrOr,
    AndAnd,
    Eq,
    EqEq,
    NotEq,
    Lt,
    Lte,
    Gt,
    Gte,
    // Error
    Error(TokenErrorTy),
}

/// `c` is one of the six delimiter characters.
pub open spec fn is_paren_char(c: char) -> bool {
    c == '(' || c == ')' || c == '[' || c == ']' || c == '{' || c == '}'
}

impl TokenType {
    /// The kind of nested token that the delimiter `c` opens or closes.
    pub open spec fn spec_from_paren(c: char) -> TokenType {
        if c == '(' || c == ')' {
            TokenType::Parens
        } else if c == '[' || c == ']' {
            TokenType::Brackets
        } else {
            TokenType::CurlyBrackets
        }
    }

    /// Whether tokens of this type hold other tokens.
    pub open spec fn spec_is_nested(&self) -> bool {
        *self == TokenType::Parens || *self == TokenType::Brackets || *self
            == TokenType::CurlyBrackets
    }

    /// The kind of nested token that the delimiter `c` opens or closes.
    pub fn new_from_paren(c: char) -> (ty: Self)
        requires
            is_paren_char(c),
        ensures
            ty == Self::spec_from_paren(c),
            ty.is_nested(),
    {
        if c == '(' || c == ')' {
            Self::Parens
        } else if c == '[' || c == ']' {
            Self::Brackets
        } else {
            Self::CurlyBrackets
        }
    }

    /// Whether tokens of this type hold other tokens.
    #[verifier::when_used_as_spec(spec_is_nested)]
    pub fn is_nested(&self) -> (nested: bool)
        ensures
            nested == self.spec_is_nested(),
    {
        matches!(self, TokenType::Parens | TokenType::Brackets | TokenType::CurlyBrackets)
    }
}

/// The smallest lexical unit.
#[derive(Debug, Clone, Copy, PartialEq, Eq, Structural)]
pub struct Token {
    /// The type of the token.
    pub ty: TokenType,
    /// The span of text the token came from.
    pub span: Span,
}

impl Token {
    /// Create a new `Token` from its category and span.
    pub fn new(ty: TokenType, span: Span) -> (token: Self)
        ensures
            token == (Token { ty, span }),
    {
        Self { ty, span }
    }

    /// Get the `TokenType` of the `Token`.
    pub fn ty(&self) -> (ty: TokenType)
        ensures
            ty == self.ty,
    {
        self.ty
    }

    /// Returns the `Span` the `Token` covers.
    pub fn span(&self) -> (span: Span)
        ensures
            span == self.span,
    {
        self.span
    }
}

/// A token, and for a delimited group the tokens between its delimiters.
#[derive(Debug)]
pub struct TokenTree {
    token: Token,
    children: Vec<TokenTree>,
}

/// What a `TokenTree` holds: the model that contracts speak of.
pub struct TokenTreeView {
    pub ty: TokenType,
    pub span: Span,
    pub children: Seq<TokenTreeView>,
}

impl TokenTreeView {
    /// A token without children.
    pub open spec fn leaf(ty: TokenType, span: Span) -> TokenTreeView {
        TokenTreeView { ty, span, children: Seq::empty() }
    }

    /// An error token.
    pub open spec fn error(error_ty: TokenErrorTy, span: Span) -> TokenTreeView {
        TokenTreeView::leaf(TokenType::Error(error_ty), span)
    }
}

/// The models of a sequence of trees.
pub open spec fn tree_views(trees: Seq<TokenTree>) -> Seq<TokenTreeView> {
    trees.map_values(|tree: TokenTree| tree@)
}

/// The model of `tree`.
pub closed spec fn tree_view(tree: TokenTree) -> TokenTreeView
    decreases tree,
{
    TokenTreeView {
        ty: tree.token.ty,
        span: tree.token.span,
        children: Seq::new(
            tree.children@.len(),
            |i: int|
                if 0 <= i < tree.children@.len() {
                    tree_view(tree.children@[i])
                } else {
                    arbitrary()
                },
        ),
    }
}

impl View for TokenTree {
    type V = TokenTreeView;

    open spec fn view(&self) -> TokenTreeView {
        tree_view(*self)
    }
}

impl TokenTree {
    /// Only nested tokens can have children.
    #[verifier::type_invariant]
    closed spec fn inv(&self) -> bool {
        self.children@.len() > 0 ==> self.token.ty.is_nested()
    }

    /// The model of a tree holds the models of its children.
    proof fn lemma_children(&self)
        ensures
            self@.children == tree_views(self.children@),
    {
        let views = tree_views(self.children@);
        assert(self@.children.len() == views.len());
        assert forall|i: int| 0 <= i < views.len() implies self@.children[i] == views[i] by {
            assert(self@.children[i] == self.children@[i]@);
        }
        assert(self@.children =~= views);
    }

    /// A token without children.
    pub fn new(ty: TokenType, span: Span) -> (tree: Self)
        ensures
            tree@ == TokenTreeView::leaf(ty, span),
    {
        let tree = Self { token: Token::new(ty, span), children: Vec::new() };
        assert(tree@.children =~= Seq::empty());
        tree
    }

    /// An error token.
    pub fn new_error(error_ty: TokenErrorTy, span: Span) -> (tree: Self)
        ensures
            tree@ == TokenTreeView::error(error_ty, span),
    {
        Self::new(TokenType::Error(error_ty), span)
    }

    /// A nested token that holds `children`.
    pub fn new_nested(ty: TokenType, span: Span, children: Vec<TokenTree>) -> (tree: Self)
        requires
            ty.is_nested(),
        ensures
            tree@ == (TokenTreeView { ty, span, children: tree_views(children@) }),
    {
        let tree = Self { token: Token::new(ty, span), children };
        proof {
            tree.lemma_children();
        }
        tree
    }

    /// The token at the root of the tree.
    pub fn token(&self) -> (token: Token)
        ensures
            token == (Token { ty: self@.ty, span: self@.span }),
    {
        self.token
    }

    /// The type of the token at the root.
    pub fn ty(&self) -> (ty: TokenType)
        ensures
            ty == self@.ty,
    {
        self.token.ty()
    }

    /// The span of the whole tree.
    pub fn span(&self) -> (span: Span)
        ensures
            span == self@.span,
    {
        self.token.span()
    }

    /// The trees between the delimiters of a nested token.
    pub fn children(&self) -> (children: &[TokenTree])
        ensures
            tree_views(children@) == self@.children,
            self@.children.len() > 0 ==> self@.ty.is_nested(),
    {
        proof {
            use_type_invariant(self);
            self.lemma_children();
        }
        self.children.as_slice()
    }
}

} // verus!

//! The declaration model handed to the reordering engine by the parser: a
//! syntactic kind, a source span, a line range, and the markers the engine
//! honors. The engine never mutates declarations; it only reads them and
//! produces replacement text keyed by span.

use vstd::prelude::*;

use crate::imports::TreeView;
use crate::imports::UseTree;
use crate::imports::path_wf;
use crate::imports::tree_view;

verus! {

/// A half-open position range in the source text.
#[derive(Debug, Clone, Copy, PartialEq, Eq, Structural)]
pub struct Span {
    pub lo: usize,
    pub hi: usize,
}

/// A closed line range in the source text.
#[derive(Debug, Clone, Copy, PartialEq, Eq, Structural)]
pub struct LineRange {
    pub lo: usize,
    pub hi: usize,
}

/// The syntactic kind of a top-level declaration, as the classifier reads it.
#[derive(Debug)]
pub enum ItemKind {
    /// An import statement.
    Use(UseTree),
    /// A module declaration; `is_decl` is true for a forward declaration
    /// referencing an external file, false for an inline body.
    Mod { name: String, is_decl: bool },
    /// An external-library declaration, `orig_name` carrying the origin name
    /// when the declaration renames it (`ident` is then the local alias).
    ExternCrate { orig_name: Option<String>, ident: String },
    Fn,
    Struct,
    Enum,
    Impl,
    Trait,
    Union,
    TyAlias,
    Const,
    Static,
    MacroDef,
    MacCall,
    Other,
}

/// Mathematical model of a syntactic kind.
pub enum ItemKindView {
    Use(TreeView),
    Mod { name: Seq<char>, is_decl: bool },
    ExternCrate { orig_name: Option<Seq<char>>, ident: Seq<char> },
    Fn,
    Struct,
    Enum,
    Impl,
    Trait,
    Union,
    TyAlias,
    Const,
    Static,
    MacroDef,
    MacCall,
    Other,
}

pub open spec fn item_kind_view(k: ItemKind) -> ItemKindView {
    match k {
        ItemKind::Use(t) => ItemKindView::Use(tree_view(t)),
        ItemKind::Mod { name, is_decl } => ItemKindView::Mod { name: name@, is_decl },
        ItemKind::ExternCrate { orig_name, ident } => ItemKindView::ExternCrate {
            orig_name: match orig_name {
                Option::Some(n) => Option::Some(n@),
                Option::None => Option::None,
            },
            ident: ident@,
        },
        ItemKind::Fn => ItemKindView::Fn,
        ItemKind::Struct => ItemKindView::Struct,
        ItemKind::Enum => ItemKindView::Enum,
        ItemKind::Impl => ItemKindView::Impl,
        ItemKind::Trait => ItemKindView::Trait,
        ItemKind::Union => ItemKindView::Union,
        ItemKind::TyAlias => ItemKindView::TyAlias,
        ItemKind::Const => ItemKindView::Const,
        ItemKind::Static => ItemKindView::Static,
        ItemKind::MacroDef => ItemKindView::MacroDef,
        ItemKind::MacCall => ItemKindView::MacCall,
        ItemKind::Other => ItemKindView::Other,
    }
}

impl View for ItemKind {
    type V = ItemKindView;

    open spec fn view(&self) -> ItemKindView {
        item_kind_view(*self)
    }
}

/// One top-level declaration, borrowed from the parse tree.
#[derive(Debug)]
pub struct Declaration {
    pub kind: ItemKind,
    /// Position range of the declaration in the source text.
    pub span: Span,
    /// Line range of the declaration in the source text.
    pub lines: LineRange,
    /// The skip-formatting marker.
    pub has_skip_attr: bool,
    /// The implicitly-imports-macros marker.
    pub has_macro_use_attr: bool,
    /// Leading comment attached by the external comment-attachment utility.
    pub leading_comment: Option<String>,
    /// Trailing comment attached by the external comment-attachment utility.
    pub trailing_comment: Option<String>,
}

/// Mathematical model of a declaration.
pub struct DeclView {
    pub kind: ItemKindView,
    pub span: Span,
    pub lines: LineRange,
    pub has_skip_attr: bool,
    pub has_macro_use_attr: bool,
    pub leading_comment: Option<Seq<char>>,
    pub trailing_comment: Option<Seq<char>>,
}

pub open spec fn decl_view(d: Declaration) -> DeclView {
    DeclView {
        kind: item_kind_view(d.kind),
        span: d.span,
        lines: d.lines,
        has_skip_attr: d.has_skip_attr,
        has_macro_use_attr: d.has_macro_use_attr,
        leading_comment: match d.leading_comment {
            Option::Some(c) => Option::Some(c@),
            Option::None => Option::None,
        },
        trailing_comment: match d.trailing_comment {
            Option::Some(c) => Option::Some(c@),
            Option::None => Option::None,
        },
    }
}

impl View for Declaration {
    type V = DeclView;

    open spec fn view(&self) -> DeclView {
        decl_view(*self)
    }
}

/// Validity of a declaration: ordered span and line range, and a well-formed
/// import tree where the kind is an import.
pub open spec fn decl_wf(d: DeclView) -> bool {
    &&& d.span.lo <= d.span.hi
    &&& d.lines.lo <= d.lines.hi
    &&& match d.kind {
        ItemKindView::Use(t) => path_wf(t.path),
        _ => true,
    }
}

fn clone_string(s: &String) -> (r: String)
    ensures
        r@ == s@,
{
    s.clone()
}

fn clone_opt_string(s: &Option<String>) -> (r: Option<String>)
    ensures
        (match (r, s) {
            (Option::Some(x), Option::Some(y)) => x@ == y@,
            (Option::None, Option::None) => true,
            _ => false,
        }),
{
    match s {
        Option::Some(x) => Option::Some(x.clone()),
        Option::None => Option::None,
    }
}

pub fn clone_item_kind(k: &ItemKind) -> (r: ItemKind)
    ensures
        r@ == k@,
{
    match k {
        ItemKind::Use(t) => ItemKind::Use(crate::imports::clone_tree(t)),
        ItemKind::Mod { name, is_decl } => ItemKind::Mod {
            name: clone_string(name),
            is_decl: *is_decl,
        },
        ItemKind::ExternCrate { orig_name, ident } => ItemKind::ExternCrate {
            orig_name: clone_opt_string(orig_name),
            ident: clone_string(ident),
        },
        ItemKind::Fn => ItemKind::Fn,
        ItemKind::Struct => ItemKind::Struct,
        ItemKind::Enum => ItemKind::Enum,
        ItemKind::Impl => ItemKind::Impl,
        ItemKind::Trait => ItemKind::Trait,
        ItemKind::Union => ItemKind::Union,
        ItemKind::TyAlias => ItemKind::TyAlias,
        ItemKind::Const => ItemKind::Const,
        ItemKind::Static => ItemKind::Static,
        ItemKind::MacroDef => ItemKind::MacroDef,
        ItemKind::MacCall => ItemKind::MacCall,
        ItemKind::Other => ItemKind::Other,
    }
}

pub fn clone_declaration(d: &Declaration) -> (r: Declaration)
    ensures
        r@ == d@,
{
    Declaration {
        kind: clone_item_kind(&d.kind),
        span: d.span,
        lines: d.lines,
        has_skip_attr: d.has_skip_attr,
        has_macro_use_attr: d.has_macro_use_attr,
        leading_comment: clone_opt_string(&d.leading_comment),
        trailing_comment: clone_opt_string(&d.trailing_comment),
    }
}

pub open spec fn decls_view(ds: Seq<Declaration>) -> Seq<DeclView>
    decreases ds,
{
    if ds.len() == 0 {
        Seq::empty()
    } else {
        decls_view(ds.drop_last()).push(decl_view(ds.last()))
    }
}

pub proof fn lemma_decls_view_len(ds: Seq<Declaration>)
    ensures
        decls_view(ds).len() == ds.len(),
        forall|i: int| 0 <= i < ds.len() ==> decls_view(ds)[i] == decl_view(ds[i]),
    decreases ds,
{
    if ds.len() > 0 {
        lemma_decls_view_len(ds.drop_last());
    }
}

} // verus!

//! Reordering of consecutive `mod`, `extern crate` and `use` declarations:
//! classification into reorder kinds, the edition-conditioned pairwise order,
//! regrouping of imports into standard, external and local groups, and the
//! run rewriter that produces the replacement text.

use vstd::prelude::*;

use crate::config::Config;
use crate::config::GroupImportsTactic;
use crate::decl::Declaration;
use crate::decl::DeclView;
use crate::decl::ItemKind;
use crate::decl::ItemKindView;
use crate::decl::item_kind_view;
use crate::imports::TreeView;
use crate::imports::UseTree;
use crate::imports::clone_tree;
use crate::imports::lemma_trees_view_len;
use crate::imports::tree_view;
use crate::imports::trees_view;
use crate::sort::ItemOrdering;
use crate::sort::compare_names;
use crate::sort::flip_ordering;
use crate::sort::lemma_name_cmp_total;
use crate::sort::name_cmp;

verus! {

broadcast use vstd::std_specs::vec::group_vec_axioms, vstd::seq::group_seq_axioms;

/// Run-scoped rewrite failures; the caller recovers by leaving the run's
/// original source text untouched.
#[derive(Debug, Clone, Copy, PartialEq, Eq, Structural)]
pub enum RewriteError {
    /// A declaration inside a reorderable run cannot be individually rendered.
    UnsupportedDeclarationVariant,
    /// A fragment does not fit within the width constraints.
    LayoutOverflow,
    /// Catch-all failure from a collaborator.
    Unknown,
}

/// Width constraints handed to the layout engine.
#[derive(Debug, Clone, Copy, PartialEq, Eq, Structural)]
pub struct Shape {
    /// Total width available for one line, indent included.
    pub width: usize,
    /// Spaces of indentation at the start of every emitted line.
    pub indent: usize,
}

/// A simplified reorder-kind derived from a declaration's syntactic kind and
/// its opt-out markers.
#[derive(Debug, PartialEq, Eq, Copy, Clone, Structural)]
pub enum ReorderableItemKind {
    ExternCrate,
    Mod,
    Use,
    /// An item that cannot be reordered: an unreorderable syntactic kind, an
    /// inline module body, or a skip or macro-import marker.
    Other,
}

/// The reorder-kind of a declaration: a skip or implicit-macro-import marker
/// forces `Other`; otherwise external-library declarations, module forward
/// declarations and imports are reorderable.
pub open spec fn reorder_kind_spec(d: DeclView) -> ReorderableItemKind {
    if d.has_macro_use_attr || d.has_skip_attr {
        ReorderableItemKind::Other
    } else {
        match d.kind {
            ItemKindView::ExternCrate { .. } => ReorderableItemKind::ExternCrate,
            ItemKindView::Mod { is_decl, .. } => if is_decl {
                ReorderableItemKind::Mod
            } else {
                ReorderableItemKind::Other
            },
            ItemKindView::Use(_) => ReorderableItemKind::Use,
            _ => ReorderableItemKind::Other,
        }
    }
}

/// True when the declaration carries the implicit-macro-import marker.
pub fn contains_macro_use_attr(item: &Declaration) -> (r: bool)
    ensures
        r == item@.has_macro_use_attr,
{
    item.has_macro_use_attr
}

impl ReorderableItemKind {
    pub fn from(item: &Declaration) -> (k: Self)
        ensures
            k == reorder_kind_spec(item@),
    {
        if contains_macro_use_attr(item) || item.has_skip_attr {
            ReorderableItemKind::Other
        } else {
            match &item.kind {
                ItemKind::ExternCrate { .. } => ReorderableItemKind::ExternCrate,
                ItemKind::Mod { is_decl, .. } => if *is_decl {
                    ReorderableItemKind::Mod
                } else {
                    ReorderableItemKind::Other
                },
                ItemKind::Use(_) => ReorderableItemKind::Use,
                _ => ReorderableItemKind::Other,
            }
        }
    }

    pub fn is_same_item_kind(self, item: &Declaration) -> (r: bool)
        ensures
            r == (reorder_kind_spec(item@) == self),
    {
        ReorderableItemKind::from(item) == self
    }

    /// Whether runs of this kind are sorted under the configuration.
    pub fn is_reorderable(self, config: &Config) -> (r: bool)
        ensures
            r == is_reorderable_spec(self, *config),
    {
        match self {
            ReorderableItemKind::ExternCrate => config.reorder_imports,
            ReorderableItemKind::Mod => config.reorder_modules,
            ReorderableItemKind::Use => config.reorder_imports,
            ReorderableItemKind::Other => false,
        }
    }

    /// Whether runs of this kind are regrouped under the configuration.
    pub fn is_regroupable(self, config: &Config) -> (r: bool)
        ensures
            r == is_regroupable_spec(self, *config),
    {
        match self {
            ReorderableItemKind::ExternCrate => false,
            ReorderableItemKind::Mod => false,
            ReorderableItemKind::Other => false,
            ReorderableItemKind::Use => config.group_imports != GroupImportsTactic::Preserve,
        }
    }

    /// Whether a blank line between declarations of this kind bounds the run.
    pub fn in_group(self, config: &Config) -> (r: bool)
        ensures
            r == in_group_spec(self, *config),
    {
        match self {
            ReorderableItemKind::ExternCrate => true,
            ReorderableItemKind::Mod => true,
            ReorderableItemKind::Use => config.group_imports == GroupImportsTactic::Preserve,
            ReorderableItemKind::Other => false,
        }
    }
}

pub open spec fn is_reorderable_spec(k: ReorderableItemKind, c: Config) -> bool {
    match k {
        ReorderableItemKind::ExternCrate => c.reorder_imports,
        ReorderableItemKind::Mod => c.reorder_modules,
        ReorderableItemKind::Use => c.reorder_imports,
        ReorderableItemKind::Other => false,
    }
}

pub open spec fn is_regroupable_spec(k: ReorderableItemKind, c: Config) -> bool {
    match k {
        ReorderableItemKind::Use => c.group_imports != GroupImportsTactic::Preserve,
        _ => false,
    }
}

pub open spec fn in_group_spec(k: ReorderableItemKind, c: Config) -> bool {
    match k {
        ReorderableItemKind::ExternCrate => true,
        ReorderableItemKind::Mod => true,
        ReorderableItemKind::Use => c.group_imports == GroupImportsTactic::Preserve,
        ReorderableItemKind::Other => false,
    }
}

/// The pairwise order between two same-kind declarations: modules compare by
/// declared name; external-library declarations compare by origin name, an
/// unaliased declaration sorts before an aliased one with the same origin,
/// and two aliased ones compare by their aliases. Names compare under the
/// edition-conditioned policy.
pub open spec fn compare_items_spec(legacy: bool, a: ItemKindView, b: ItemKindView) -> ItemOrdering {
    match (a, b) {
        (ItemKindView::Mod { name: an, .. }, ItemKindView::Mod { name: bn, .. }) => name_cmp(
            legacy,
            an,
            bn,
        ),
        (
            ItemKindView::ExternCrate { orig_name: ao, ident: ai },
            ItemKindView::ExternCrate { orig_name: bo, ident: bi },
        ) => {
            let aorig = match ao {
                Option::Some(n) => n,
                Option::None => ai,
            };
            let borig = match bo {
                Option::Some(n) => n,
                Option::None => bi,
            };
            let d = name_cmp(legacy, aorig, borig);
            if d != ItemOrdering::Equal {
                d
            } else {
                match (ao, bo) {
                    (Option::Some(_), Option::None) => ItemOrdering::Greater,
                    (Option::None, Option::Some(_)) => ItemOrdering::Less,
                    (Option::None, Option::None) => ItemOrdering::Equal,
                    (Option::Some(_), Option::Some(_)) => name_cmp(legacy, ai, bi),
                }
            }
        },
        _ => ItemOrdering::Equal,
    }
}

fn compare_kinds(legacy: bool, a: &ItemKind, b: &ItemKind) -> (o: ItemOrdering)
    ensures
        o == compare_items_spec(legacy, a@, b@),
{
    match (a, b) {
        (ItemKind::Mod { name: an, .. }, ItemKind::Mod { name: bn, .. }) => compare_names(
            legacy,
            an.as_str(),
            bn.as_str(),
        ),
        (
            ItemKind::ExternCrate { orig_name: ao, ident: ai },
            ItemKind::ExternCrate { orig_name: bo, ident: bi },
        ) => {
            let aorig = match ao {
                Option::Some(n) => n,
                Option::None => ai,
            };
            let borig = match bo {
                Option::Some(n) => n,
                Option::None => bi,
            };
            let d = compare_names(legacy, aorig.as_str(), borig.as_str());
            if d != ItemOrdering::Equal {
                d
            } else {
                match (ao, bo) {
                    (Option::Some(_), Option::None) => ItemOrdering::Greater,
                    (Option::None, Option::Some(_)) => ItemOrdering::Less,
                    (Option::None, Option::None) => ItemOrdering::Equal,
                    (Option::Some(_), Option::Some(_)) => compare_names(
                        legacy,
                        ai.as_str(),
                        bi.as_str(),
                    ),
                }
            }
        },
        _ => ItemOrdering::Equal,
    }
}

/// Chooses the ordering between the given two items. The caller guarantees
/// that both are module declarations or both external-library declarations.
pub fn compare_items(a: &Declaration, b: &Declaration, config: &Config) -> (o: ItemOrdering)
    requires
        (a@.kind is Mod && b@.kind is Mod) || (a@.kind is ExternCrate && b@.kind is ExternCrate),
    ensures
        o == compare_items_spec(config.legacy_order(), a@.kind, b@.kind),
{
    let legacy = config.uses_legacy_order();
    compare_kinds(legacy, &a.kind, &b.kind)
}

/// Law: the pairwise item order is a consistent total order — exchanging the
/// arguments flips the result, and every item compares equal to itself.
pub proof fn lemma_compare_items_total(legacy: bool, a: ItemKindView, b: ItemKindView)
    ensures
        compare_items_spec(legacy, b, a) == flip_ordering(compare_items_spec(legacy, a, b)),
        compare_items_spec(legacy, a, a) == ItemOrdering::Equal,
{
    match (a, b) {
        (ItemKindView::Mod { name: an, .. }, ItemKindView::Mod { name: bn, .. }) => {
            lemma_name_cmp_total(legacy, an, bn);
        },
        (
            ItemKindView::ExternCrate { orig_name: ao, ident: ai },
            ItemKindView::ExternCrate { orig_name: bo, ident: bi },
        ) => {
            let aorig = match ao {
                Option::Some(n) => n,
                Option::None => ai,
            };
            let borig = match bo {
                Option::Some(n) => n,
                Option::None => bi,
            };
            lemma_name_cmp_total(legacy, aorig, borig);
            lemma_name_cmp_total(legacy, ai, bi);
        },
        _ => {},
    }
    match a {
        ItemKindView::Mod { name: an, .. } => {
            lemma_name_cmp_total(legacy, an, an);
        },
        ItemKindView::ExternCrate { orig_name: ao, ident: ai } => {
            let aorig = match ao {
                Option::Some(n) => n,
                Option::None => ai,
            };
            lemma_name_cmp_total(legacy, aorig, aorig);
            lemma_name_cmp_total(legacy, ai, ai);
        },
        _ => {},
    }
}

/// Law: on same-kind items — the only pairs the comparator is defined for —
/// the pairwise item order is transitive: two Less comparisons compose to
/// Less and two Equal comparisons compose to Equal. Together with
/// `lemma_compare_items_total` this makes it a strict weak ordering.
pub proof fn lemma_compare_items_trans(
    legacy: bool,
    a: ItemKindView,
    b: ItemKindView,
    c: ItemKindView,
)
    requires
        (a is Mod && b is Mod && c is Mod) || (a is ExternCrate && b is ExternCrate
            && c is ExternCrate),
    ensures
        compare_items_spec(legacy, a, b) == ItemOrdering::Less && compare_items_spec(legacy, b, c)
            == ItemOrdering::Less ==> compare_items_spec(legacy, a, c) == ItemOrdering::Less,
        compare_items_spec(legacy, a, b) == ItemOrdering::Equal && compare_items_spec(
            legacy,
            b,
            c,
        ) == ItemOrdering::Equal ==> compare_items_spec(legacy, a, c) == ItemOrdering::Equal,
{
    match (a, b, c) {
        (
            ItemKindView::Mod { name: an, .. },
            ItemKindView::Mod { name: bn, .. },
            ItemKindView::Mod { name: cn, .. },
        ) => {
            crate::sort::lemma_name_cmp_trans(legacy, an, bn, cn);
        },
        (
            ItemKindView::ExternCrate { orig_name: ao, ident: ai },
            ItemKindView::ExternCrate { orig_name: bo, ident: bi },
            ItemKindView::ExternCrate { orig_name: co, ident: ci },
        ) => {
            let aorig = match ao {
                Option::Some(n) => n,
                Option::None => ai,
            };
            let borig = match bo {
                Option::Some(n) => n,
                Option::None => bi,
            };
            let corig = match co {
                Option::Some(n) => n,
                Option::None => ci,
            };
            crate::sort::lemma_name_cmp_trans(legacy, aorig, borig, corig);
            crate::sort::lemma_name_cmp_trans(legacy, ai, bi, ci);
        },
        _ => {},
    }
}

/// A standard-platform import: the first path segment is `std`, `alloc` or
/// `core`.
pub open spec fn is_std_import(t: TreeView) -> bool {
    t.path.len() > 0 && match t.path[0] {
        crate::imports::SegView::Ident { name, .. } => name == "std"@ || name == "alloc"@
            || name == "core"@,
        _ => false,
    }
}

/// A local import: the first path segment is a `self`, `super` or crate-root
/// marker.
pub open spec fn is_local_import(t: TreeView) -> bool {
    t.path.len() > 0 && match t.path[0] {
        crate::imports::SegView::Slf => true,
        crate::imports::SegView::Super => true,
        crate::imports::SegView::CrateRoot => true,
        _ => false,
    }
}

pub open spec fn std_imports_of(ts: Seq<TreeView>) -> Seq<TreeView> {
    ts.filter(|t: TreeView| is_std_import(t))
}

pub open spec fn local_imports_of(ts: Seq<TreeView>) -> Seq<TreeView> {
    ts.filter(|t: TreeView| is_local_import(t))
}

/// Everything else — including imports with an empty path and those starting
/// with a glob or nested list — goes to the external group.
pub open spec fn external_imports_of(ts: Seq<TreeView>) -> Seq<TreeView> {
    ts.filter(|t: TreeView| !is_std_import(t) && !is_local_import(t))
}

fn classify_import(t: &UseTree) -> (r: (bool, bool))
    ensures
        r.0 == is_std_import(t@),
        r.1 == is_local_import(t@),
{
    proof {
        crate::imports::lemma_path_view_len(t.path@);
    }
    if t.path.len() == 0 {
        return (false, false);
    }
    match &t.path[0] {
        crate::imports::UseSegment::Ident { name, .. } => {
            let std_root = crate::sort::lexicographic_cmp(name.as_str(), "std")
                == ItemOrdering::Equal || crate::sort::lexicographic_cmp(name.as_str(), "alloc")
                == ItemOrdering::Equal || crate::sort::lexicographic_cmp(name.as_str(), "core")
                == ItemOrdering::Equal;
            proof {
                crate::sort::lemma_lex_cmp_eq(name@, "std"@);
                crate::sort::lemma_lex_cmp_eq(name@, "alloc"@);
                crate::sort::lemma_lex_cmp_eq(name@, "core"@);
                assert(t@.path[0] == crate::imports::seg_view(t.path@[0]));
            }
            (std_root, false)
        },
        crate::imports::UseSegment::Slf => {
            proof {
                assert(t@.path[0] == crate::imports::seg_view(t.path@[0]));
            }
            (false, true)
        },
        crate::imports::UseSegment::Super => {
            proof {
                assert(t@.path[0] == crate::imports::seg_view(t.path@[0]));
            }
            (false, true)
        },
        crate::imports::UseSegment::CrateRoot => {
            proof {
                assert(t@.path[0] == crate::imports::seg_view(t.path@[0]));
            }
            (false, true)
        },
        _ => {
            proof {
                assert(t@.path[0] == crate::imports::seg_view(t.path@[0]));
            }
            (false, false)
        },
    }
}

/// Divides imports into three groups, corresponding to standard, external
/// and local imports, keeping each group in input order.
pub fn group_imports(uts: Vec<UseTree>) -> (r: Vec<Vec<UseTree>>)
    ensures
        r@.len() == 3,
        trees_view(r@[0]@) == std_imports_of(trees_view(uts@)),
        trees_view(r@[1]@) == external_imports_of(trees_view(uts@)),
        trees_view(r@[2]@) == local_imports_of(trees_view(uts@)),
{
    let ghost tv = trees_view(uts@);
    proof {
        lemma_trees_view_len(uts@);
    }
    let mut std_imports: Vec<UseTree> = Vec::new();
    let mut external_imports: Vec<UseTree> = Vec::new();
    let mut local_imports: Vec<UseTree> = Vec::new();
    let n = uts.len();
    let mut i: usize = 0;
    while i < n
        invariant
            i <= n,
            n == uts@.len(),
            tv == trees_view(uts@),
            tv.len() == n,
            forall|j: int| 0 <= j < n ==> tv[j] == tree_view(uts@[j]),
            trees_view(std_imports@) == std_imports_of(tv.subrange(0, i as int)),
            trees_view(external_imports@) == external_imports_of(tv.subrange(0, i as int)),
            trees_view(local_imports@) == local_imports_of(tv.subrange(0, i as int)),
        decreases n - i,
    {
        let ghost sub = tv.subrange(0, i as int);
        let (is_std, is_local) = classify_import(&uts[i]);
        proof {
            assert(tv.subrange(0, i + 1 as int).drop_last() =~= sub);
            assert(tv.subrange(0, i + 1 as int).last() == tv[i as int]);
            reveal_with_fuel(Seq::filter, 2);
        }
        if is_std {
            let ghost prev = trees_view(std_imports@);
            let ghost prevs = std_imports@;
            let t = clone_tree(&uts[i]);
            std_imports.push(t);
            proof {
                assert(std_imports@.drop_last() =~= prevs);
                assert(trees_view(std_imports@) == prev.push(tv[i as int]));
                assert(std_imports_of(tv.subrange(0, i + 1 as int)) == std_imports_of(sub).push(
                    tv[i as int]));
            }
        } else if is_local {
            let ghost prev = trees_view(local_imports@);
            let ghost prevs = local_imports@;
            let t = clone_tree(&uts[i]);
            local_imports.push(t);
            proof {
                assert(local_imports@.drop_last() =~= prevs);
                assert(trees_view(local_imports@) == prev.push(tv[i as int]));
                assert(local_imports_of(tv.subrange(0, i + 1 as int)) == local_imports_of(
                    sub,
                ).push(tv[i as int]));
            }
        } else {
            let ghost prev = trees_view(external_imports@);
            let ghost prevs = external_imports@;
            let t = clone_tree(&uts[i]);
            external_imports.push(t);
            proof {
                assert(external_imports@.drop_last() =~= prevs);
                assert(trees_view(external_imports@) == prev.push(tv[i as int]));
                assert(external_imports_of(tv.subrange(0, i + 1 as int)) == external_imports_of(
                    sub,
                ).push(tv[i as int]));
            }
        }
        i = i + 1;
    }
    proof {
        assert(tv.subrange(0, n as int) =~= tv);
    }
    let mut r: Vec<Vec<UseTree>> = Vec::new();
    r.push(std_imports);
    r.push(external_imports);
    r.push(local_imports);
    r
}

/// One formatting unit handed to the layout engine: a rendered item together
/// with its attached leading and trailing comments, or the item's rewrite
/// failure.
#[derive(Debug)]
pub struct ListItem {
    pub pre_comment: Option<String>,
    pub post_comment: Option<String>,
    pub item: Result<String, RewriteError>,
}

/// Mathematical model of a formatting unit.
pub struct ListItemView {
    pub pre_comment: Option<Seq<char>>,
    pub post_comment: Option<Seq<char>>,
    pub item: Result<Seq<char>, RewriteError>,
}

pub open spec fn list_item_view(li: ListItem) -> ListItemView {
    ListItemView {
        pre_comment: match li.pre_comment {
            Option::Some(c) => Option::Some(c@),
            Option::None => Option::None,
        },
        post_comment: match li.post_comment {
            Option::Some(c) => Option::Some(c@),
            Option::None => Option::None,
        },
        item: match li.item {
            Result::Ok(s) => Result::Ok(s@),
            Result::Err(e) => Result::Err(e),
        },
    }
}

impl View for ListItem {
    type V = ListItemView;

    open spec fn view(&self) -> ListItemView {
        list_item_view(*self)
    }
}

/// `n` spaces of indentation.
pub open spec fn spaces(n: nat) -> Seq<char>
    decreases n,
{
    if n == 0 {
        Seq::empty()
    } else {
        spaces((n - 1) as nat) + " "@
    }
}

fn push_spaces(n: usize, out: &mut String)
    ensures
        final(out)@ == old(out)@ + spaces(n as nat),
{
    let mut k: usize = 0;
    while k < n
        invariant
            k <= n,
            out@ == old(out)@ + spaces(k as nat),
        decreases n - k,
    {
        out.append(" ");
        proof {
            assert(old(out)@ + spaces(k as nat) + " "@ =~= old(out)@ + (spaces(k as nat) + " "@));
        }
        k = k + 1;
    }
    proof {
        assert(out@ =~= old(out)@ + spaces(n as nat));
    }
}

/// The first rewrite failure among the units, if any.
pub open spec fn first_item_error(items: Seq<ListItemView>) -> Option<RewriteError>
    decreases items.len(),
{
    if items.len() == 0 {
        Option::None
    } else {
        match items.first().item {
            Result::Err(e) => Option::Some(e),
            Result::Ok(_) => first_item_error(items.drop_first()),
        }
    }
}

/// The text of one unit: its leading comment on its own line, then the item,
/// then its trailing comment on the same line.
pub open spec fn unit_text(li: ListItemView, indent: nat) -> Seq<char> {
    let body = match li.item {
        Result::Ok(s) => s,
        Result::Err(_) => Seq::empty(),
    };
    let with_pre = match li.pre_comment {
        Option::None => body,
        Option::Some(c) => c + "\n"@ + spaces(indent) + body,
    };
    match li.post_comment {
        Option::None => with_pre,
        Option::Some(c) => with_pre + " "@ + c,
    }
}

/// All units, each on its own line.
pub open spec fn wrapped_text(items: Seq<ListItemView>, indent: nat) -> Seq<char>
    decreases items.len(),
{
    if items.len() == 0 {
        Seq::empty()
    } else if items.len() == 1 {
        unit_text(items.first(), indent)
    } else {
        unit_text(items.first(), indent) + "\n"@ + spaces(indent) + wrapped_text(
            items.drop_first(),
            indent,
        )
    }
}

pub open spec fn list_items_view(s: Seq<ListItem>) -> Seq<ListItemView>
    decreases s,
{
    if s.len() == 0 {
        Seq::empty()
    } else {
        list_items_view(s.drop_last()).push(list_item_view(s.last()))
    }
}

pub proof fn lemma_list_items_view_len(s: Seq<ListItem>)
    ensures
        list_items_view(s).len() == s.len(),
        forall|i: int| 0 <= i < s.len() ==> list_items_view(s)[i] == list_item_view(s[i]),
    decreases s,
{
    if s.len() > 0 {
        lemma_list_items_view_len(s.drop_last());
    }
}

fn wrap_items_from(list_items: &Vec<ListItem>, i: usize, shape: &Shape, out: &mut String) -> (r:
    Result<(), RewriteError>)
    requires
        i <= list_items@.len(),
    ensures
        (match first_item_error(list_items_view(list_items@).skip(i as int)) {
            Option::Some(e) => r == Result::<(), RewriteError>::Err(e),
            Option::None => r is Ok && final(out)@ == old(out)@ + wrapped_text(
                list_items_view(list_items@).skip(i as int),
                shape.indent as nat,
            ),
        }),
    decreases list_items@.len() - i,
{
    let ghost lv = list_items_view(list_items@);
    proof {
        lemma_list_items_view_len(list_items@);
    }
    if i == list_items.len() {
        proof {
            assert(lv.skip(i as int) =~= Seq::<ListItemView>::empty());
        }
        return Result::Ok(());
    }
    proof {
        assert(lv.skip(i as int).first() == lv[i as int]);
        assert(lv[i as int] == list_item_view(list_items@[i as int]));
        assert(lv.skip(i as int).drop_first() =~= lv.skip(i + 1));
    }
    let li = &list_items[i];
    let body = match &li.item {
        Result::Ok(s) => s,
        Result::Err(e) => {
            return Result::Err(*e);
        },
    };
    match &li.pre_comment {
        Option::Some(c) => {
            out.append(c.as_str());
            out.append("\n");
            push_spaces(shape.indent, out);
        },
        Option::None => {},
    }
    out.append(body.as_str());
    match &li.post_comment {
        Option::Some(c) => {
            out.append(" ");
            out.append(c.as_str());
        },
        Option::None => {},
    }
    proof {
        assert(out@ =~= old(out)@ + unit_text(lv[i as int], shape.indent as nat));
    }
    if i + 1 < list_items.len() {
        out.append("\n");
        push_spaces(shape.indent, out);
        let ghost mid = out@;
        let r = wrap_items_from(list_items, i + 1, shape, out);
        match r {
            Result::Ok(_) => {
                proof {
                    assert(out@ =~= old(out)@ + wrapped_text(lv.skip(i as int), shape.indent as nat));
                }
                Result::Ok(())
            },
            Result::Err(e) => Result::Err(e),
        }
    } else {
        proof {
            assert(lv.skip(i as int).len() == 1);
        }
        Result::Ok(())
    }
}

/// Lays out the given formatting units, one per line with the configured
/// indentation, failing if any unit failed to render.
pub fn wrap_reorderable_items(list_items: &Vec<ListItem>, shape: &Shape) -> (r: Result<
    String,
    RewriteError,
>)
    ensures
        (match first_item_error(list_items_view(list_items@)) {
            Option::Some(e) => r == Result::<String, RewriteError>::Err(e),
            Option::None => r is Ok && r->Ok_0@ == wrapped_text(
                list_items_view(list_items@),
                shape.indent as nat,
            ),
        }),
{
    let mut out = String::new();
    let r = wrap_items_from(list_items, 0, shape, &mut out);
    proof {
        assert(list_items_view(list_items@).skip(0) =~= list_items_view(list_items@));
    }
    match r {
        Result::Ok(_) => Result::Ok(out),
        Result::Err(e) => Result::Err(e),
    }
}

/// Law: partitioning a run into the standard, external and local groups
/// preserves the multiset of fully-qualified leaf paths — every leaf lands in
/// exactly one group.
pub proof fn lemma_grouping_preserves_leaves(ts: Seq<TreeView>)
    ensures
        crate::imports::trees_leaves(std_imports_of(ts)).to_multiset().add(
            crate::imports::trees_leaves(external_imports_of(ts)).to_multiset(),
        ).add(crate::imports::trees_leaves(local_imports_of(ts)).to_multiset())
            == crate::imports::trees_leaves(ts).to_multiset(),
    decreases ts.len(),
{
    broadcast use vstd::seq_lib::group_to_multiset_ensures;
    broadcast use vstd::seq_lib::lemma_multiset_commutative;

    if ts.len() == 0 {
        assert(crate::imports::trees_leaves(std_imports_of(ts)).to_multiset().add(
            crate::imports::trees_leaves(external_imports_of(ts)).to_multiset(),
        ).add(crate::imports::trees_leaves(local_imports_of(ts)).to_multiset())
            =~= crate::imports::trees_leaves(ts).to_multiset());
    } else {
        let dl = ts.drop_last();
        let x = ts.last();
        lemma_grouping_preserves_leaves(dl);
        assert(dl.push(x) =~= ts);
        reveal_with_fuel(Seq::filter, 2);
        let s0 = std_imports_of(dl);
        let e0 = external_imports_of(dl);
        let l0 = local_imports_of(dl);
        assert(std_imports_of(ts) == s0 || std_imports_of(ts) == s0.push(x));
        assert(external_imports_of(ts) == e0 || external_imports_of(ts) == e0.push(x));
        assert(local_imports_of(ts) == l0 || local_imports_of(ts) == l0.push(x));
        assert(crate::imports::trees_leaves(s0.push(x)) == crate::imports::trees_leaves(s0)
            + crate::imports::tree_leaves(x)) by {
            assert(s0.push(x).drop_last() =~= s0);
        }
        assert(crate::imports::trees_leaves(e0.push(x)) == crate::imports::trees_leaves(e0)
            + crate::imports::tree_leaves(x)) by {
            assert(e0.push(x).drop_last() =~= e0);
        }
        assert(crate::imports::trees_leaves(l0.push(x)) == crate::imports::trees_leaves(l0)
            + crate::imports::tree_leaves(x)) by {
            assert(l0.push(x).drop_last() =~= l0);
        }
        assert(crate::imports::trees_leaves(ts) == crate::imports::trees_leaves(dl)
            + crate::imports::tree_leaves(x));
        assert(crate::imports::trees_leaves(std_imports_of(ts)).to_multiset().add(
            crate::imports::trees_leaves(external_imports_of(ts)).to_multiset(),
        ).add(crate::imports::trees_leaves(local_imports_of(ts)).to_multiset())
            =~= crate::imports::trees_leaves(ts).to_multiset());
    }
}

/// Rendered text of a module or external-library declaration.
pub open spec fn render_item_spec(kind: ItemKindView) -> Seq<char> {
    match kind {
        ItemKindView::Mod { name, .. } => "mod "@ + name + ";"@,
        ItemKindView::ExternCrate { orig_name, ident } => match orig_name {
            Option::None => "extern crate "@ + ident + ";"@,
            Option::Some(o) => "extern crate "@ + o + " as "@ + ident + ";"@,
        },
        _ => Seq::empty(),
    }
}

/// What rewriting one declaration yields: the rendered text when the kind is
/// renderable and fits, a layout overflow when it does not fit, and an
/// unsupported-variant failure for any other kind.
pub open spec fn render_item_result(kind: ItemKindView, shape: Shape) -> Result<
    Seq<char>,
    RewriteError,
> {
    match kind {
        ItemKindView::Mod { .. } => if shape.indent + render_item_spec(kind).len()
            <= shape.width {
            Result::Ok(render_item_spec(kind))
        } else {
            Result::Err(RewriteError::LayoutOverflow)
        },
        ItemKindView::ExternCrate { .. } => if shape.indent + render_item_spec(kind).len()
            <= shape.width {
            Result::Ok(render_item_spec(kind))
        } else {
            Result::Err(RewriteError::LayoutOverflow)
        },
        _ => Result::Err(RewriteError::UnsupportedDeclarationVariant),
    }
}

/// Renders one module or external-library declaration, failing on any other
/// kind and on width overflow.
pub fn rewrite_reorderable_item(item: &Declaration, shape: &Shape) -> (r: Result<
    String,
    RewriteError,
>)
    ensures
        (match render_item_result(item@.kind, *shape) {
            Result::Ok(s) => r is Ok && r->Ok_0@ == s,
            Result::Err(e) => r == Result::<String, RewriteError>::Err(e),
        }),
{
    let mut line = String::new();
    match &item.kind {
        ItemKind::Mod { name, .. } => {
            line.append("mod ");
            line.append(name.as_str());
            line.append(";");
            proof {
                assert(line@ =~= render_item_spec(item@.kind));
            }
        },
        ItemKind::ExternCrate { orig_name, ident } => {
            line.append("extern crate ");
            match orig_name {
                Option::None => {
                    line.append(ident.as_str());
                    line.append(";");
                },
                Option::Some(o) => {
                    line.append(o.as_str());
                    line.append(" as ");
                    line.append(ident.as_str());
                    line.append(";");
                },
            }
            proof {
                assert(line@ =~= render_item_spec(item@.kind));
            }
        },
        _ => {
            return Result::Err(RewriteError::UnsupportedDeclarationVariant);
        },
    }
    if shape.indent > shape.width || line.as_str().unicode_len() > shape.width - shape.indent {
        Result::Err(RewriteError::LayoutOverflow)
    } else {
        Result::Ok(line)
    }
}

/// One sortable unit of a module or external-library run.
#[derive(Debug)]
pub struct RunUnit {
    pub li: ListItem,
    pub kind: ItemKind,
}

/// Mathematical model of a sortable unit.
pub struct UnitView {
    pub li: ListItemView,
    pub kind: ItemKindView,
}

pub open spec fn unit_view(u: RunUnit) -> UnitView {
    UnitView { li: list_item_view(u.li), kind: item_kind_view(u.kind) }
}

pub open spec fn units_view(s: Seq<RunUnit>) -> Seq<UnitView>
    decreases s,
{
    if s.len() == 0 {
        Seq::empty()
    } else {
        units_view(s.drop_last()).push(unit_view(s.last()))
    }
}

pub proof fn lemma_units_view_len(s: Seq<RunUnit>)
    ensures
        units_view(s).len() == s.len(),
        forall|i: int| 0 <= i < s.len() ==> units_view(s)[i] == unit_view(s[i]),
    decreases s,
{
    if s.len() > 0 {
        lemma_units_view_len(s.drop_last());
    }
}

/// Insertion step of the stable sort of formatting units under the pairwise
/// item order.
pub open spec fn insert_unit_sorted(legacy: bool, u: UnitView, s: Seq<UnitView>) -> Seq<UnitView>
    decreases s,
{
    if s.len() == 0 {
        seq![u]
    } else if compare_items_spec(legacy, s.last().kind, u.kind) != ItemOrdering::Greater {
        s.push(u)
    } else {
        insert_unit_sorted(legacy, u, s.drop_last()).push(s.last())
    }
}

/// Stable insertion sort of formatting units under the pairwise item order.
pub open spec fn sort_units_spec(legacy: bool, s: Seq<UnitView>) -> Seq<UnitView>
    decreases s,
{
    if s.len() == 0 {
        Seq::empty()
    } else {
        insert_unit_sorted(legacy, s.last(), sort_units_spec(legacy, s.drop_last()))
    }
}

/// Adjacent-pair sortedness of a unit list.
pub open spec fn units_sorted(legacy: bool, s: Seq<UnitView>) -> bool {
    forall|i: int| 0 <= i && i + 1 < s.len() ==> #[trigger] compare_items_spec(
        legacy,
        s[i].kind,
        s[i + 1].kind,
    ) != ItemOrdering::Greater
}

proof fn lemma_insert_unit_sorted_props(legacy: bool, u: UnitView, s: Seq<UnitView>)
    ensures
        insert_unit_sorted(legacy, u, s).len() == s.len() + 1,
        insert_unit_sorted(legacy, u, s).to_multiset() == s.to_multiset().insert(u),
        units_sorted(legacy, s) ==> units_sorted(legacy, insert_unit_sorted(legacy, u, s)),
        insert_unit_sorted(legacy, u, s).last() == u || (s.len() > 0 && insert_unit_sorted(
            legacy,
            u,
            s,
        ).last() == s.last()),
    decreases s,
{
    broadcast use vstd::seq_lib::group_to_multiset_ensures;

    if s.len() == 0 {
        assert(seq![u] =~= Seq::<UnitView>::empty().push(u));
    } else if compare_items_spec(legacy, s.last().kind, u.kind) != ItemOrdering::Greater {
        if units_sorted(legacy, s) {
            assert forall|i: int| 0 <= i && i + 1 < s.push(u).len() implies #[trigger] compare_items_spec(
                legacy,
                s.push(u)[i].kind,
                s.push(u)[i + 1].kind,
            ) != ItemOrdering::Greater by {
                if i + 1 < s.len() {
                    assert(compare_items_spec(legacy, s[i].kind, s[i + 1].kind)
                        != ItemOrdering::Greater);
                }
            }
        }
    } else {
        lemma_insert_unit_sorted_props(legacy, u, s.drop_last());
        lemma_compare_items_total(legacy, s.last().kind, u.kind);
        let r0 = insert_unit_sorted(legacy, u, s.drop_last());
        let r = r0.push(s.last());
        assert(s =~= s.drop_last().push(s.last()));
        assert(s.to_multiset() == s.drop_last().to_multiset().insert(s.last()));
        assert(r.to_multiset() == r0.to_multiset().insert(s.last()));
        assert(r.to_multiset() =~= s.to_multiset().insert(u));
        if units_sorted(legacy, s) {
            assert(units_sorted(legacy, s.drop_last())) by {
                assert forall|i: int|
                    0 <= i && i + 1 < s.drop_last().len() implies #[trigger] compare_items_spec(
                    legacy,
                    s.drop_last()[i].kind,
                    s.drop_last()[i + 1].kind,
                ) != ItemOrdering::Greater by {
                    assert(compare_items_spec(legacy, s[i].kind, s[i + 1].kind)
                        != ItemOrdering::Greater);
                }
            }
            assert(units_sorted(legacy, r0));
            assert(r0.last() == u || (s.drop_last().len() > 0 && r0.last() == s.drop_last().last()));
            assert forall|i: int| 0 <= i && i + 1 < r.len() implies #[trigger] compare_items_spec(
                legacy,
                r[i].kind,
                r[i + 1].kind,
            ) != ItemOrdering::Greater by {
                if i + 1 < r0.len() {
                    assert(r[i] == r0[i] && r[i + 1] == r0[i + 1]);
                } else {
                    assert(r[i] == r0.last() && r[i + 1] == s.last());
                    if r0.last() == u {
                        assert(compare_items_spec(legacy, u.kind, s.last().kind)
                            != ItemOrdering::Greater);
                    } else {
                        let k = s.len() - 2;
                        assert(s[k] == s.drop_last().last() && s[k + 1] == s.last());
                        assert(compare_items_spec(legacy, s[k].kind, s[k + 1].kind)
                            != ItemOrdering::Greater);
                    }
                }
            }
        }
    }
}

/// Law: the unit sort produces an adjacently sorted run holding the same
/// multiset of units as its input.
pub proof fn lemma_sort_units_spec_ensures(legacy: bool, s: Seq<UnitView>)
    ensures
        sort_units_spec(legacy, s).len() == s.len(),
        sort_units_spec(legacy, s).to_multiset() == s.to_multiset(),
        units_sorted(legacy, sort_units_spec(legacy, s)),
    decreases s,
{
    broadcast use vstd::seq_lib::group_to_multiset_ensures;

    if s.len() > 0 {
        lemma_sort_units_spec_ensures(legacy, s.drop_last());
        lemma_insert_unit_sorted_props(legacy, s.last(), sort_units_spec(legacy, s.drop_last()));
        assert(s =~= s.drop_last().push(s.last()));
        assert(s.to_multiset() == s.drop_last().to_multiset().insert(s.last()));
    }
}

/// Law: sorting an already sorted run of units leaves it unchanged, so
/// re-running the rewriter on its own output reproduces the same order.
pub proof fn lemma_sort_units_idempotent(legacy: bool, s: Seq<UnitView>)
    requires
        units_sorted(legacy, s),
    ensures
        sort_units_spec(legacy, s) == s,
    decreases s,
{
    if s.len() > 0 {
        assert(units_sorted(legacy, s.drop_last())) by {
            assert forall|i: int| 0 <= i && i + 1 < s.drop_last().len() implies #[trigger] compare_items_spec(
                legacy,
                s.drop_last()[i].kind,
                s.drop_last()[i + 1].kind,
            ) != ItemOrdering::Greater by {
                assert(compare_items_spec(legacy, s[i].kind, s[i + 1].kind)
                    != ItemOrdering::Greater);
            }
        }
        lemma_sort_units_idempotent(legacy, s.drop_last());
        if s.len() == 1 {
            assert(sort_units_spec(legacy, s) =~= s);
        } else {
            let k = s.len() - 2;
            assert(s[k] == s.drop_last().last() && s[k + 1] == s.last());
            assert(compare_items_spec(legacy, s.drop_last().last().kind, s.last().kind)
                != ItemOrdering::Greater);
            assert(sort_units_spec(legacy, s) =~= s);
        }
    } else {
        assert(sort_units_spec(legacy, s) =~= s);
    }
}

fn insert_unit(legacy: bool, s: Vec<RunUnit>, u: RunUnit) -> (r: Vec<RunUnit>)
    ensures
        units_view(r@) == insert_unit_sorted(legacy, unit_view(u), units_view(s@)),
    decreases s@.len(),
{
    let mut s = s;
    if s.len() == 0 {
        s.push(u);
        proof {
            assert(s@.drop_last() =~= Seq::<RunUnit>::empty());
            assert(units_view(Seq::<RunUnit>::empty()) == Seq::<UnitView>::empty());
            assert(units_view(s@) =~= seq![unit_view(u)]);
        }
        s
    } else {
        let ghost sv = units_view(s@);
        proof {
            lemma_units_view_len(s@);
        }
        let d = compare_kinds(legacy, &s[s.len() - 1].kind, &u.kind);
        proof {
            assert(sv.last() == unit_view(s@.last()));
        }
        if d == ItemOrdering::Greater {
            let last = s.pop().unwrap();
            proof {
                assert(sv.drop_last() =~= units_view(s@));
            }
            let mut r = insert_unit(legacy, s, u);
            let ghost rv = units_view(r@);
            let ghost prevr = r@;
            r.push(last);
            proof {
                assert(r@.drop_last() =~= prevr);
                assert(units_view(r@) == rv.push(unit_view(last)));
            }
            r
        } else {
            let ghost prev = s@;
            s.push(u);
            proof {
                assert(s@.drop_last() =~= prev);
                assert(units_view(s@) == units_view(s@.drop_last()).push(unit_view(s@.last())));
            }
            s
        }
    }
}

fn sort_units(legacy: bool, us: Vec<RunUnit>) -> (r: Vec<RunUnit>)
    ensures
        units_view(r@) == sort_units_spec(legacy, units_view(us@)),
    decreases us@.len(),
{
    let mut us = us;
    let ghost uv = units_view(us@);
    proof {
        lemma_units_view_len(us@);
    }
    match us.pop() {
        Option::None => {
            proof {
                assert(units_view(us@) =~= Seq::<UnitView>::empty());
            }
            us
        },
        Option::Some(u) => {
            proof {
                assert(units_view(us@) =~= uv.drop_last());
                assert(unit_view(u) == uv.last());
            }
            let sorted = sort_units(legacy, us);
            insert_unit(legacy, sorted, u)
        },
    }
}

/// The list-item parts of a unit run, in order.
pub open spec fn units_items(s: Seq<UnitView>) -> Seq<ListItemView> {
    s.map_values(|u: UnitView| u.li)
}

fn clone_string(s: &String) -> (r: String)
    ensures
        r@ == s@,
{
    s.clone()
}

fn clone_opt_string(s: &Option<String>) -> (r: Option<String>)
    ensures
        (match (r, s) {
            (Option::Some(x), Option::Some(y)) => x@ == y@,
            (Option::None, Option::None) => true,
            _ => false,
        }),
{
    match s {
        Option::Some(x) => Option::Some(x.clone()),
        Option::None => Option::None,
    }
}

use crate::decl::clone_item_kind;

/// The units a module or external-library run is built from: each item's
/// rendered text (or failure) together with its leading comment and kind.
pub open spec fn built_units(items: Seq<crate::decl::DeclView>, shape: Shape) -> Seq<UnitView> {
    items.map_values(
        |d: crate::decl::DeclView| UnitView {
            li: ListItemView {
                pre_comment: d.leading_comment,
                post_comment: d.trailing_comment,
                item: render_item_result(d.kind, shape),
            },
            kind: d.kind,
        },
    )
}

/// What rewriting a module or external-library run yields: units sorted under
/// the pairwise order and laid out one per line, or the first failure among
/// the sorted units.
pub open spec fn rewrite_mod_run_spec(cfg: Config, shape: Shape, items: Seq<crate::decl::DeclView>) -> Result<
    Seq<char>,
    RewriteError,
> {
    let sorted = sort_units_spec(cfg.legacy_order(), built_units(items, shape));
    match first_item_error(units_items(sorted)) {
        Option::Some(e) => Result::Err(e),
        Option::None => Result::Ok(wrapped_text(units_items(sorted), shape.indent as nat)),
    }
}

/// One rendered import line, without indentation.
pub open spec fn use_line(t: TreeView) -> Seq<char> {
    "use "@ + crate::imports::render_path(t.path) + ";"@
}

/// One tree's emitted text: its re-attached comment on its own line, then
/// its import line.
pub open spec fn tree_line(t: TreeView, indent: nat) -> Seq<char> {
    match t.comment {
        Option::None => use_line(t),
        Option::Some(c) => c + "\n"@ + spaces(indent) + use_line(t),
    }
}

/// A group's import lines, one per line.
pub open spec fn group_lines(g: Seq<TreeView>, indent: nat) -> Seq<char>
    decreases g.len(),
{
    if g.len() == 0 {
        Seq::empty()
    } else if g.len() == 1 {
        tree_line(g.first(), indent)
    } else {
        tree_line(g.first(), indent) + "\n"@ + spaces(indent) + group_lines(g.drop_first(), indent)
    }
}

/// Every line of the group fits within the width.
pub open spec fn group_fits(g: Seq<TreeView>, shape: Shape) -> bool {
    forall|i: int| 0 <= i < g.len() ==> shape.indent + use_line(#[trigger] g[i]).len()
        <= shape.width
}

pub open spec fn all_groups_fit(gs: Seq<Seq<TreeView>>, shape: Shape) -> bool {
    forall|i: int| 0 <= i < gs.len() ==> group_fits(#[trigger] gs[i], shape)
}

/// The non-empty groups, in order.
pub open spec fn nonempty_groups(gs: Seq<Seq<TreeView>>) -> Seq<Seq<TreeView>> {
    gs.filter(|g: Seq<TreeView>| g.len() > 0)
}

/// Group blocks joined by a blank line.
pub open spec fn groups_text(gs: Seq<Seq<TreeView>>, indent: nat) -> Seq<char>
    decreases gs.len(),
{
    if gs.len() == 0 {
        Seq::empty()
    } else if gs.len() == 1 {
        group_lines(gs.first(), indent)
    } else {
        group_lines(gs.first(), indent) + "\n\n"@ + spaces(indent) + groups_text(
            gs.drop_first(),
            indent,
        )
    }
}

/// Each group sorted structurally when import reordering is enabled.
pub open spec fn sorted_groups_spec(legacy: bool, reorder: bool, gs: Seq<Seq<TreeView>>) -> Seq<
    Seq<TreeView>,
> {
    if reorder {
        gs.map_values(|g: Seq<TreeView>| crate::imports::sort_trees_spec(legacy, g))
    } else {
        gs
    }
}

/// The groups an import run is rewritten as: normalized per the granularity,
/// partitioned per the grouping tactic, and sorted when reordering is on.
pub open spec fn use_run_groups(cfg: Config, ts: Seq<TreeView>) -> Seq<Seq<TreeView>> {
    let norm = crate::imports::normalize_spec(cfg.legacy_order(), cfg.imports_granularity, ts);
    let gs = match cfg.group_imports {
        GroupImportsTactic::Preserve => seq![norm],
        GroupImportsTactic::One => seq![norm],
        GroupImportsTactic::StdExternalCrate => seq![
            std_imports_of(norm),
            external_imports_of(norm),
            local_imports_of(norm),
        ],
    };
    sorted_groups_spec(cfg.legacy_order(), cfg.reorder_imports, gs)
}

/// What rewriting an import run yields: the non-empty groups rendered one
/// import per line and joined by blank lines, or a layout overflow when any
/// line does not fit.
pub open spec fn rewrite_use_run_spec(cfg: Config, shape: Shape, ts: Seq<TreeView>) -> Result<
    Seq<char>,
    RewriteError,
> {
    let gs = nonempty_groups(use_run_groups(cfg, ts));
    if all_groups_fit(gs, shape) {
        Result::Ok(groups_text(gs, shape.indent as nat))
    } else {
        Result::Err(RewriteError::LayoutOverflow)
    }
}

pub open spec fn groups_view(s: Seq<Vec<UseTree>>) -> Seq<Seq<TreeView>>
    decreases s,
{
    if s.len() == 0 {
        Seq::empty()
    } else {
        groups_view(s.drop_last()).push(trees_view(s.last()@))
    }
}

pub proof fn lemma_groups_view_len(s: Seq<Vec<UseTree>>)
    ensures
        groups_view(s).len() == s.len(),
        forall|i: int| 0 <= i < s.len() ==> groups_view(s)[i] == trees_view(s[i]@),
    decreases s,
{
    if s.len() > 0 {
        lemma_groups_view_len(s.drop_last());
    }
}

fn render_group_from(g: &Vec<UseTree>, i: usize, shape: &Shape, out: &mut String) -> (r: Result<
    (),
    RewriteError,
>)
    requires
        i <= g@.len(),
    ensures
        (if group_fits(trees_view(g@).skip(i as int), *shape) {
            r is Ok && final(out)@ == old(out)@ + group_lines(
                trees_view(g@).skip(i as int),
                shape.indent as nat,
            )
        } else {
            r == Result::<(), RewriteError>::Err(RewriteError::LayoutOverflow)
        }),
    decreases g@.len() - i,
{
    let ghost gv = trees_view(g@);
    proof {
        lemma_trees_view_len(g@);
    }
    if i == g.len() {
        proof {
            assert(gv.skip(i as int) =~= Seq::<TreeView>::empty());
        }
        return Result::Ok(());
    }
    proof {
        assert(gv.skip(i as int).first() == gv[i as int]);
        assert(gv[i as int] == tree_view(g@[i as int]));
        assert(gv.skip(i as int).drop_first() =~= gv.skip(i + 1));
    }
    let mut line = String::new();
    line.append("use ");
    crate::imports::render_use_tree(&g[i], &mut line);
    line.append(";");
    proof {
        assert(line@ =~= use_line(gv[i as int]));
    }
    if shape.indent > shape.width || line.as_str().unicode_len() > shape.width - shape.indent {
        proof {
            assert(shape.indent + use_line(gv.skip(i as int)[0]).len() > shape.width);
        }
        return Result::Err(RewriteError::LayoutOverflow);
    }
    match &g[i].comment {
        Option::Some(c) => {
            out.append(c.as_str());
            out.append("\n");
            push_spaces(shape.indent, out);
        },
        Option::None => {},
    }
    out.append(line.as_str());
    proof {
        assert(out@ =~= old(out)@ + tree_line(gv[i as int], shape.indent as nat));
    }
    if i + 1 < g.len() {
        out.append("\n");
        push_spaces(shape.indent, out);
        let r = render_group_from(g, i + 1, shape, out);
        match r {
            Result::Ok(_) => {
                proof {
                    assert(group_fits(gv.skip(i + 1), *shape));
                    assert forall|k: int| 0 <= k < gv.skip(i as int).len() implies shape.indent
                        + use_line(#[trigger] gv.skip(i as int)[k]).len() <= shape.width by {
                        if k > 0 {
                            assert(gv.skip(i as int)[k] == gv.skip(i + 1)[k - 1]);
                        }
                    }
                    assert(out@ =~= old(out)@ + group_lines(
                        gv.skip(i as int),
                        shape.indent as nat,
                    ));
                }
                Result::Ok(())
            },
            Result::Err(e) => {
                proof {
                    assert(!group_fits(gv.skip(i + 1), *shape));
                    let bad = choose|k: int|
                        0 <= k < gv.skip(i + 1).len() && shape.indent + use_line(
                            #[trigger] gv.skip(i + 1)[k],
                        ).len() > shape.width;
                    assert(gv.skip(i as int)[bad + 1] == gv.skip(i + 1)[bad]);
                    assert(!group_fits(gv.skip(i as int), *shape));
                }
                Result::Err(e)
            },
        }
    } else {
        proof {
            assert(gv.skip(i as int).len() == 1);
            assert forall|k: int| 0 <= k < gv.skip(i as int).len() implies shape.indent
                + use_line(#[trigger] gv.skip(i as int)[k]).len() <= shape.width by {
                assert(k == 0);
            }
        }
        Result::Ok(())
    }
}

fn render_groups_from(gs: &Vec<Vec<UseTree>>, i: usize, shape: &Shape, out: &mut String) -> (r:
    Result<(), RewriteError>)
    requires
        i <= gs@.len(),
    ensures
        (if all_groups_fit(groups_view(gs@).skip(i as int), *shape) {
            r is Ok && final(out)@ == old(out)@ + groups_text(
                groups_view(gs@).skip(i as int),
                shape.indent as nat,
            )
        } else {
            r == Result::<(), RewriteError>::Err(RewriteError::LayoutOverflow)
        }),
    decreases gs@.len() - i,
{
    let ghost gsv = groups_view(gs@);
    proof {
        lemma_groups_view_len(gs@);
    }
    if i == gs.len() {
        proof {
            assert(gsv.skip(i as int) =~= Seq::<Seq<TreeView>>::empty());
        }
        return Result::Ok(());
    }
    proof {
        assert(gsv.skip(i as int).first() == gsv[i as int]);
        assert(gsv[i as int] == trees_view(gs@[i as int]@));
        assert(gsv.skip(i as int).drop_first() =~= gsv.skip(i + 1));
        assert(trees_view(gs@[i as int]@).skip(0) =~= trees_view(gs@[i as int]@));
    }
    let r0 = render_group_from(&gs[i], 0, shape, out);
    match r0 {
        Result::Err(e) => {
            proof {
                assert(!group_fits(gsv.skip(i as int)[0], *shape));
            }
            return Result::Err(e);
        },
        Result::Ok(_) => {},
    }
    proof {
        assert(group_fits(gsv.skip(i as int)[0], *shape));
    }
    if i + 1 < gs.len() {
        out.append("\n\n");
        push_spaces(shape.indent, out);
        let r = render_groups_from(gs, i + 1, shape, out);
        match r {
            Result::Ok(_) => {
                proof {
                    assert(all_groups_fit(gsv.skip(i + 1), *shape));
                    assert forall|k: int| 0 <= k < gsv.skip(i as int).len() implies group_fits(
                        #[trigger] gsv.skip(i as int)[k],
                        *shape,
                    ) by {
                        if k > 0 {
                            assert(gsv.skip(i as int)[k] == gsv.skip(i + 1)[k - 1]);
                        }
                    }
                    assert(out@ =~= old(out)@ + groups_text(
                        gsv.skip(i as int),
                        shape.indent as nat,
                    ));
                }
                Result::Ok(())
            },
            Result::Err(e) => {
                proof {
                    assert(!all_groups_fit(gsv.skip(i + 1), *shape));
                    let bad = choose|k: int|
                        0 <= k < gsv.skip(i + 1).len() && !group_fits(
                            #[trigger] gsv.skip(i + 1)[k],
                            *shape,
                        );
                    assert(gsv.skip(i as int)[bad + 1] == gsv.skip(i + 1)[bad]);
                    assert(!all_groups_fit(gsv.skip(i as int), *shape));
                }
                Result::Err(e)
            },
        }
    } else {
        proof {
            assert(gsv.skip(i as int).len() == 1);
            assert forall|k: int| 0 <= k < gsv.skip(i as int).len() implies group_fits(
                #[trigger] gsv.skip(i as int)[k],
                *shape,
            ) by {
                assert(k == 0);
            }
        }
        Result::Ok(())
    }
}

/// The import trees of an all-import run, in order, each carrying its
/// declaration's leading comment as the back-reference for re-attachment.
pub open spec fn use_trees_of(items: Seq<crate::decl::DeclView>) -> Seq<TreeView> {
    items.map_values(
        |d: crate::decl::DeclView| TreeView {
            path: (d.kind->Use_0).path,
            comment: d.leading_comment,
        },
    )
}

/// What rewriting a run of same-kind declarations yields: the import
/// pipeline for an import run, the pairwise sort for a module or
/// external-library run, and a collaborator failure when a declaration of
/// another kind slipped into an import run.
#[verifier::opaque]
pub open spec fn rewrite_run_spec(
    cfg: Config,
    shape: Shape,
    items: Seq<crate::decl::DeclView>,
) -> Result<Seq<char>, RewriteError> {
    if items.len() == 0 {
        Result::Err(RewriteError::Unknown)
    } else if items[0].kind is Use {
        if forall|i: int| 0 <= i < items.len() ==> (#[trigger] items[i]).kind is Use {
            rewrite_use_run_spec(cfg, shape, use_trees_of(items))
        } else {
            Result::Err(RewriteError::Unknown)
        }
    } else {
        rewrite_mod_run_spec(cfg, shape, items)
    }
}

/// Rewrites a run of declarations sharing one reorderable kind: imports are
/// normalized, regrouped and sorted per the configuration; modules and
/// external-library declarations are rendered and sorted pairwise. A failure
/// means the caller leaves the run's original source text untouched.
pub fn rewrite_reorderable_or_regroupable_items(
    config: &Config,
    reorderable_items: &Vec<Declaration>,
    shape: &Shape,
) -> (r: Result<String, RewriteError>)
    requires
        reorderable_items@.len() > 0,
        forall|i: int| 0 <= i < reorderable_items@.len() ==> crate::decl::decl_wf(
            #[trigger] reorderable_items@[i]@,
        ),
    ensures
        (match rewrite_run_spec(*config, *shape, crate::decl::decls_view(reorderable_items@)) {
            Result::Ok(s) => r is Ok && r->Ok_0@ == s,
            Result::Err(e) => r == Result::<String, RewriteError>::Err(e),
        }),
{
    let ghost dv = crate::decl::decls_view(reorderable_items@);
    proof {
        crate::decl::lemma_decls_view_len(reorderable_items@);
        assert forall|j: int| 0 <= j < dv.len() implies crate::decl::decl_wf(#[trigger] dv[j]) by {
            assert(crate::decl::decl_wf(reorderable_items@[j]@));
        }
    }
    let legacy = config.uses_legacy_order();
    let is_use_run = match &reorderable_items[0].kind {
        ItemKind::Use(_) => true,
        _ => false,
    };
    if is_use_run {
        // collect the run's import trees
        let n = reorderable_items.len();
        let mut trees: Vec<UseTree> = Vec::new();
        let mut i: usize = 0;
        while i < n
            invariant
                i <= n,
                n == reorderable_items@.len(),
                dv == crate::decl::decls_view(reorderable_items@),
                dv.len() == n,
                forall|j: int| 0 <= j < n ==> dv[j] == reorderable_items@[j]@,
                forall|j: int| 0 <= j < n ==> crate::decl::decl_wf(#[trigger] dv[j]),
                dv[0].kind is Use,
                forall|j: int| 0 <= j < i ==> #[trigger] dv[j].kind is Use,
                trees_view(trees@) == use_trees_of(dv.subrange(0, i as int)),
                crate::imports::trees_wf(trees_view(trees@)),
            decreases n - i,
        {
            match &reorderable_items[i].kind {
                ItemKind::Use(t) => {
                    let ghost prev = trees_view(trees@);
                    let ghost prevs = trees@;
                    let c = UseTree {
                        path: crate::imports::clone_path(&t.path),
                        comment: clone_opt_string(&reorderable_items[i].leading_comment),
                    };
                    trees.push(c);
                    proof {
                        assert(trees@.drop_last() =~= prevs);
                        assert(tree_view(trees@.last()) == (TreeView {
                            path: (dv[i as int].kind->Use_0).path,
                            comment: dv[i as int].leading_comment,
                        }));
                        assert(trees_view(trees@) =~= use_trees_of(dv.subrange(0, i + 1 as int)));
                        crate::imports::lemma_trees_view_len(trees@);
                        assert forall|j: int| 0 <= j < trees_view(trees@).len() implies crate::imports::path_wf(
                            #[trigger] trees_view(trees@)[j].path,
                        ) by {
                            assert(trees_view(trees@)[j].path == (dv[j].kind->Use_0).path);
                            assert(crate::decl::decl_wf(dv[j]));
                        }
                        crate::imports::lemma_trees_wf_build(trees_view(trees@));
                    }
                },
                _ => {
                    proof {
                        reveal(rewrite_run_spec);
                        assert(!(dv[i as int].kind is Use));
                        assert(dv[i as int] == reorderable_items@[i as int]@);
                    }
                    return Result::Err(RewriteError::Unknown);
                },
            }
            i = i + 1;
        }
        proof {
            assert(dv.subrange(0, n as int) =~= dv);
        }
        let normalized = crate::imports::normalize_use_trees_with_granularity(
            trees,
            config.imports_granularity,
            legacy,
        );
        let mut regrouped: Vec<Vec<UseTree>> = match config.group_imports {
            GroupImportsTactic::Preserve => {
                let mut v: Vec<Vec<UseTree>> = Vec::new();
                v.push(normalized);
                v
            },
            GroupImportsTactic::One => {
                let mut v: Vec<Vec<UseTree>> = Vec::new();
                v.push(normalized);
                v
            },
            GroupImportsTactic::StdExternalCrate => group_imports(normalized),
        };
        let ghost gs0 = groups_view(regrouped@);
        proof {
            lemma_groups_view_len(regrouped@);
            let norm = crate::imports::normalize_spec(
                config.legacy_order(),
                config.imports_granularity,
                use_trees_of(dv),
            );
            match config.group_imports {
                GroupImportsTactic::StdExternalCrate => {
                    assert(gs0 =~= seq![
                        std_imports_of(norm),
                        external_imports_of(norm),
                        local_imports_of(norm),
                    ]);
                },
                _ => {
                    assert(gs0 =~= seq![norm]);
                },
            }
        }
        let sorted_groups: Vec<Vec<UseTree>> = if config.reorder_imports {
            let mut regrouped = regrouped;
            let mut sorted: Vec<Vec<UseTree>> = Vec::new();
            let gn = regrouped.len();
            let ghost rv0 = groups_view(regrouped@);
            let mut k: usize = 0;
            while k < gn
                invariant
                    k <= gn,
                    gn == rv0.len(),
                    regrouped@.len() == gn - k,
                    forall|j: int| 0 <= j < gn - k ==> groups_view(regrouped@)[j] == rv0[j + k],
                    groups_view(sorted@).len() == k,
                    forall|j: int|
                        0 <= j < k ==> groups_view(sorted@)[j]
                            == crate::imports::sort_trees_spec(legacy, rv0[j]),
                decreases gn - k,
            {
                let ghost prer = regrouped@;
                proof {
                    lemma_groups_view_len(prer);
                }
                let g = regrouped.remove(0);
                proof {
                    assert(regrouped@ =~= prer.drop_first());
                    lemma_groups_view_len(regrouped@);
                    assert(trees_view(g@) == groups_view(prer)[0]);
                    assert(forall|j: int| 0 <= j < regrouped@.len() ==> regrouped@[j] == prer[j
                        + 1]);
                    assert(forall|j: int|
                        0 <= j < regrouped@.len() ==> groups_view(regrouped@)[j] == groups_view(
                            prer,
                        )[j + 1]);
                }
                let sg = crate::imports::sort_use_trees(legacy, g);
                let ghost prevs = sorted@;
                sorted.push(sg);
                proof {
                    assert(sorted@.drop_last() =~= prevs);
                    lemma_groups_view_len(sorted@);
                    lemma_groups_view_len(prevs);
                }
                k = k + 1;
            }
            sorted
        } else {
            regrouped
        };
        let ghost gs1 = groups_view(sorted_groups@);
        proof {
            lemma_groups_view_len(sorted_groups@);
            assert(gs1 =~= sorted_groups_spec(legacy, config.reorder_imports, gs0));
        }
        // drop empty groups, then render
        let mut nonempty: Vec<Vec<UseTree>> = Vec::new();
        let gn2 = sorted_groups.len();
        let mut k2: usize = 0;
        let mut sorted_groups = sorted_groups;
        while k2 < gn2
            invariant
                k2 <= gn2,
                gn2 == gs1.len(),
                sorted_groups@.len() == gn2 - k2,
                forall|j: int|
                    0 <= j < gn2 - k2 ==> groups_view(sorted_groups@)[j] == gs1[j + k2],
                groups_view(nonempty@) == nonempty_groups(gs1.subrange(0, k2 as int)),
            decreases gn2 - k2,
        {
            let ghost prer = sorted_groups@;
            proof {
                lemma_groups_view_len(prer);
                assert(gs1.subrange(0, k2 + 1 as int).drop_last() =~= gs1.subrange(0, k2 as int));
                assert(gs1.subrange(0, k2 + 1 as int).last() == gs1[k2 as int]);
                reveal_with_fuel(Seq::filter, 2);
            }
            let g = sorted_groups.remove(0);
            proof {
                assert(sorted_groups@ =~= prer.drop_first());
                lemma_groups_view_len(sorted_groups@);
                assert(trees_view(g@) == groups_view(prer)[0]);
                assert(trees_view(g@) == gs1[k2 as int]);
                assert(forall|j: int| 0 <= j < sorted_groups@.len() ==> sorted_groups@[j]
                    == prer[j + 1]);
                assert(forall|j: int|
                    0 <= j < sorted_groups@.len() ==> groups_view(sorted_groups@)[j]
                        == groups_view(prer)[j + 1]);
                crate::imports::lemma_trees_view_len(g@);
            }
            if g.len() > 0 {
                let ghost prevn = nonempty@;
                nonempty.push(g);
                proof {
                    assert(nonempty@.drop_last() =~= prevn);
                    lemma_groups_view_len(nonempty@);
                    assert(groups_view(nonempty@) == groups_view(prevn).push(gs1[k2 as int]));
                }
            }
            k2 = k2 + 1;
        }
        proof {
            assert(gs1.subrange(0, gn2 as int) =~= gs1);
        }
        proof {
            assert(groups_view(nonempty@) == nonempty_groups(
                use_run_groups(*config, use_trees_of(dv)),
            ));
        }
        let mut out = String::new();
        let shape2 = Shape { width: shape.width, indent: shape.indent };
        let r = render_groups_from(&nonempty, 0, &shape2, &mut out);
        proof {
            reveal(rewrite_run_spec);
            assert(groups_view(nonempty@).skip(0) =~= groups_view(nonempty@));
            assert forall|q: int|
                0 <= q < reorderable_items@.len() implies #[trigger] reorderable_items@[q]@.kind is Use by {
                assert(dv[q] == reorderable_items@[q]@);
                assert(dv[q].kind is Use);
            }
            assert(reorderable_items@[0]@.kind is Use);
        }
        match r {
            Result::Ok(_) => Result::Ok(out),
            Result::Err(e) => Result::Err(e),
        }
    } else {
        // module / external-library run: render, sort pairwise, lay out
        let n = reorderable_items.len();
        let mut units: Vec<RunUnit> = Vec::new();
        let mut i: usize = 0;
        while i < n
            invariant
                i <= n,
                n == reorderable_items@.len(),
                dv == crate::decl::decls_view(reorderable_items@),
                dv.len() == n,
                forall|j: int| 0 <= j < n ==> dv[j] == reorderable_items@[j]@,
                units_view(units@) == built_units(dv, *shape).subrange(0, i as int),
            decreases n - i,
        {
            let item = &reorderable_items[i];
            let rendered = rewrite_reorderable_item(item, shape);
            let unit = RunUnit {
                li: ListItem {
                    pre_comment: clone_opt_string(&item.leading_comment),
                    post_comment: clone_opt_string(&item.trailing_comment),
                    item: rendered,
                },
                kind: clone_item_kind(&item.kind),
            };
            let ghost prevu = units@;
            units.push(unit);
            proof {
                assert(units@.drop_last() =~= prevu);
                lemma_units_view_len(units@);
                assert(unit_view(units@.last()) == built_units(dv, *shape)[i as int]);
                assert(built_units(dv, *shape).subrange(0, i + 1 as int) =~= built_units(
                    dv,
                    *shape,
                ).subrange(0, i as int).push(built_units(dv, *shape)[i as int]));
                assert(units_view(units@) =~= built_units(dv, *shape).subrange(0, i + 1 as int));
            }
            i = i + 1;
        }
        proof {
            assert(built_units(dv, *shape).subrange(0, n as int) =~= built_units(dv, *shape));
        }
        let sorted = sort_units(legacy, units);
        let ghost sv = units_view(sorted@);
        proof {
            lemma_units_view_len(sorted@);
            assert(sv == sort_units_spec(config.legacy_order(), built_units(dv, *shape)));
        }
        let sn = sorted.len();
        let mut list_items: Vec<ListItem> = Vec::new();
        let mut sorted = sorted;
        let mut k: usize = 0;
        while k < sn
            invariant
                k <= sn,
                sn == sv.len(),
                sorted@.len() == sn - k,
                forall|j: int| 0 <= j < sn - k ==> units_view(sorted@)[j] == sv[j + k],
                list_items_view(list_items@) == units_items(sv).subrange(0, k as int),
            decreases sn - k,
        {
            let ghost prer = sorted@;
            proof {
                lemma_units_view_len(prer);
            }
            let u = sorted.remove(0);
            proof {
                assert(sorted@ =~= prer.drop_first());
                lemma_units_view_len(sorted@);
                assert(unit_view(u) == units_view(prer)[0]);
                assert(unit_view(u) == sv[k as int]);
                assert(forall|j: int| 0 <= j < sorted@.len() ==> sorted@[j] == prer[j + 1]);
                assert(forall|j: int|
                    0 <= j < sorted@.len() ==> units_view(sorted@)[j] == units_view(prer)[j + 1]);
            }
            let ghost prevl = list_items@;
            list_items.push(u.li);
            proof {
                assert(list_items@.drop_last() =~= prevl);
                lemma_list_items_view_len(list_items@);
                assert(units_items(sv).subrange(0, k + 1 as int) =~= units_items(sv).subrange(
                    0,
                    k as int,
                ).push(units_items(sv)[k as int]));
                assert(list_items_view(list_items@) =~= units_items(sv).subrange(0, k + 1 as int));
            }
            k = k + 1;
        }
        proof {
            assert(units_items(sv).subrange(0, sn as int) =~= units_items(sv));
        }
        let r = wrap_reorderable_items(&list_items, shape);
        proof {
            reveal(rewrite_run_spec);
            assert(list_items_view(list_items@) == units_items(sv));
            assert(sv == sort_units_spec(config.legacy_order(), built_units(dv, *shape)));
            assert(dv == crate::decl::decls_view(reorderable_items@));
            assert(!(reorderable_items@[0]@.kind is Use));
            assert(match rewrite_mod_run_spec(
                *config,
                *shape,
                crate::decl::decls_view(reorderable_items@),
            ) {
                Result::Ok(s) => r is Ok && r->Ok_0@ == s,
                Result::Err(e) => r == Result::<String, RewriteError>::Err(e),
            });
        }
        r
    }
}

} // verus!
